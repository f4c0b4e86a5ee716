use searchlight::app_discovery::AppInfo;
use searchlight::search::{
    accepts, combine_scores, fuzzy_score, halve, rank, ranked_places, search_apps, LOWEST_SCORE,
    MAX_SCORED_CHARS,
};

fn app(name: &str, path: &str) -> AppInfo {
    AppInfo { name: name.to_string(), path: path.to_string(), icon_path: None, description: None }
}

fn names(apps: &[AppInfo]) -> Vec<String> {
    apps.iter().map(|a| a.name.clone()).collect()
}

fn is_subsequence_ignoring_case(query: &str, text: &str) -> bool {
    let text = text.to_lowercase();
    let mut rest = text.chars();
    query.to_lowercase().chars().all(|q| rest.any(|t| t.eq_ignore_ascii_case(&q)))
}

fn registry() -> Vec<AppInfo> {
    vec![
        app("Calculator", "C:\\Windows\\System32\\calc.exe"),
        app("Notepad", "C:\\Windows\\notepad.exe"),
        app("Paint", "C:\\Windows\\System32\\mspaint.exe"),
        app("Note Taker Pro", "C:\\Apps\\notetaker.exe"),
        app("Terminal", "C:\\Apps\\Console\\wt.exe"),
        app("Steam", "D:\\Games\\Steam\\steam.exe"),
    ]
}

#[test]
fn halve_rounds_towards_zero() {
    assert_eq!(halve(0), 0);
    assert_eq!(halve(1), 0);
    assert_eq!(halve(5), 2);
    assert_eq!(halve(84), 42);
    assert_eq!(halve(-1), 0);
    assert_eq!(halve(-5), -2);
    assert_eq!(halve(-84), -42);
    assert_eq!(halve(i64::MAX), 4611686018427387903);
    assert_eq!(halve(i64::MIN), -4611686018427387904);
}

#[test]
fn combine_scores_takes_the_better_of_name_and_half_path() {
    assert_eq!(combine_scores(None, None), None);
    assert_eq!(combine_scores(Some(7), None), Some(7));
    assert_eq!(combine_scores(None, Some(7)), Some(3));
    assert_eq!(combine_scores(None, Some(-7)), Some(-3));
    assert_eq!(combine_scores(Some(1), Some(10)), Some(5));
    assert_eq!(combine_scores(Some(5), Some(10)), Some(5));
    assert_eq!(combine_scores(Some(6), Some(10)), Some(6));
    assert_eq!(combine_scores(Some(-4), Some(-7)), Some(-3));
    assert_eq!(combine_scores(Some(-2), Some(-7)), Some(-2));
}

#[test]
fn fuzzy_score_needs_a_subsequence() {
    assert_eq!(fuzzy_score("abc", "abx"), None);
    assert_eq!(fuzzy_score("", "a"), None);
    assert_eq!(fuzzy_score("abcdefaghi", "中"), None);
    assert_eq!(fuzzy_score("cba", "abc"), None);
    assert!(fuzzy_score("axbycz", "abc").is_some());
    assert!(fuzzy_score("axbycz", "xyz").is_some());
    assert_eq!(fuzzy_score("", ""), Some(0));
    assert_eq!(fuzzy_score("abcdefaghi", ""), Some(0));
}

#[test]
fn fuzzy_score_values() {
    assert_eq!(fuzzy_score("abc", "abc"), Some(71));
    assert_eq!(fuzzy_score("axbycz", "abc"), Some(55));
    assert_eq!(fuzzy_score("notepad", "note"), Some(91));
    assert_eq!(fuzzy_score("c:\\windows\\notepad.exe", "note"), Some(83));
}

#[test]
fn fuzzy_score_prefers_dense_matches() {
    let dense = fuzzy_score("notepad", "note").unwrap();
    let sparse = fuzzy_score("n-o-t-e", "note").unwrap();
    assert!(dense > sparse);
}

#[test]
fn fuzzy_score_minds_case_only_for_patterns_with_capitals() {
    assert!(fuzzy_score("NotePad", "note").is_some());
    assert!(fuzzy_score("notepad", "Note").is_none());
    assert!(fuzzy_score("Notepad", "Note").is_some());
}

#[test]
fn fuzzy_score_takes_long_texts() {
    let long = format!("{}note", "a".repeat(2_000_000));
    assert!(fuzzy_score(&long, "note").is_some());
    assert_eq!(fuzzy_score(&long, "notes"), None);
}

#[test]
fn fuzzy_score_keeps_matches_in_texts_too_long_for_the_matcher() {
    let long = format!("{}Note", "a".repeat(MAX_SCORED_CHARS));
    assert_eq!(fuzzy_score(&long, "note"), Some(LOWEST_SCORE));
    assert_eq!(fuzzy_score(&long, "Note"), Some(LOWEST_SCORE));
    assert_eq!(fuzzy_score(&long, "NOTE"), None);
    assert_eq!(fuzzy_score(&long, "notes"), None);
    assert_eq!(fuzzy_score("note", &long), None);
}

#[test]
fn accepts_is_the_matcher_s_first_pass() {
    assert!(accepts("axbycz", "abc"));
    assert!(accepts("axbycz", "xyz"));
    assert!(accepts("abc", ""));
    assert!(accepts("", ""));
    assert!(!accepts("", "a"));
    assert!(!accepts("abc", "abx"));
    assert!(!accepts("cba", "abc"));
    assert!(accepts("NotePad", "note"));
    assert!(accepts("Notepad", "Note"));
    assert!(!accepts("notepad", "Note"));
    assert!(accepts("ÄB", "äb") == fuzzy_score("ÄB", "äb").is_some());
    for (choice, pattern) in [("axbycz", "abc"), ("abc", "abx"), ("NotePad", "note"), ("n", "N")] {
        assert_eq!(accepts(choice, pattern), fuzzy_score(choice, pattern).is_some());
    }
}

#[test]
fn search_keeps_a_record_with_a_very_long_name() {
    let long_name = format!("{}notepad", "x".repeat(MAX_SCORED_CHARS));
    let apps = vec![app(&long_name, "C:\\x.exe"), app("Notepad", "C:\\Windows\\n.exe")];
    let found = search_apps(&apps, "notepad");
    assert_eq!(found.len(), 2);
    assert_eq!(found[0].name, "Notepad");
    assert_eq!(found[1].path, "C:\\x.exe");
}

#[test]
fn rank_orders_by_descending_score() {
    assert_eq!(rank(&vec![Some(3), None, Some(7), Some(9)]), vec![3, 2, 0]);
    assert_eq!(rank(&vec![Some(-3), Some(0), Some(-7)]), vec![1, 0, 2]);
    assert_eq!(rank(&Vec::new()), Vec::<usize>::new());
    assert_eq!(rank(&vec![None, None]), Vec::<usize>::new());
    assert_eq!(rank(&vec![Some(1), Some(2), Some(3), Some(4), Some(5)]), vec![4, 3, 2, 1, 0]);
    assert_eq!(rank(&vec![Some(5), Some(4), Some(3), Some(2), Some(1)]), vec![0, 1, 2, 3, 4]);
}

#[test]
fn rank_keeps_ties_in_registry_order() {
    let scores = vec![Some(3), None, Some(7), Some(3), Some(9), Some(7), Some(3)];
    assert_eq!(rank(&scores), vec![4, 2, 5, 0, 3, 6]);
    assert_eq!(rank(&vec![Some(1), Some(1), Some(1), Some(1)]), vec![0, 1, 2, 3]);
}

#[test]
fn empty_query_finds_nothing() {
    assert!(search_apps(&registry(), "").is_empty());
    assert!(ranked_places(&registry(), "").is_empty());
    assert!(search_apps(&[], "").is_empty());
}

#[test]
fn search_in_an_empty_registry_finds_nothing() {
    assert!(search_apps(&[], "note").is_empty());
}

#[test]
fn search_finds_by_name() {
    assert_eq!(names(&search_apps(&registry(), "calc")), vec!["Calculator"]);
    assert_eq!(names(&search_apps(&registry(), "zzz")), Vec::<String>::new());
}

#[test]
fn search_finds_by_path() {
    assert_eq!(names(&search_apps(&registry(), "console")), vec!["Terminal"]);
    assert_eq!(names(&search_apps(&registry(), "d:\\games")), vec!["Steam"]);
}

#[test]
fn search_ignores_case() {
    let lower = names(&search_apps(&registry(), "note"));
    assert_eq!(lower, vec!["Notepad", "Note Taker Pro", "Calculator", "Paint", "Terminal"]);
    assert_eq!(names(&search_apps(&registry(), "NOTE")), lower);
    assert_eq!(names(&search_apps(&registry(), "NoTe")), lower);
    let shouting = vec![app("NOTEPAD", "C:\\WINDOWS\\NOTEPAD.EXE")];
    assert_eq!(names(&search_apps(&shouting, "note")), vec!["NOTEPAD"]);
}

#[test]
fn search_ranks_a_name_above_a_path() {
    let apps = vec![
        app("Viewer", "C:\\Apps\\paint\\viewer.exe"),
        app("Paint", "C:\\Apps\\p.exe"),
    ];
    assert_eq!(names(&search_apps(&apps, "paint")), vec!["Paint", "Viewer"]);
}

#[test]
fn search_keeps_equal_scores_in_registry_order() {
    let apps = vec![
        app("Editor", "C:\\one\\editor.exe"),
        app("Editor", "C:\\two\\editor.exe"),
        app("Editor", "C:\\six\\editor.exe"),
    ];
    let found = search_apps(&apps, "editor");
    let paths: Vec<_> = found.iter().map(|a| a.path.clone()).collect();
    assert_eq!(paths, vec!["C:\\one\\editor.exe", "C:\\two\\editor.exe", "C:\\six\\editor.exe"]);
}

#[test]
fn search_returns_whole_records() {
    let apps = vec![AppInfo {
        name: "Tool".to_string(),
        path: "C:\\T\\tool.exe".to_string(),
        icon_path: Some("data:image/png;base64,AAAA".to_string()),
        description: Some("A tool".to_string()),
    }];
    let found = search_apps(&apps, "tool");
    assert_eq!(found.len(), 1);
    assert_eq!(found[0].name, "Tool");
    assert_eq!(found[0].path, "C:\\T\\tool.exe");
    assert_eq!(found[0].icon_path, Some("data:image/png;base64,AAAA".to_string()));
    assert_eq!(found[0].description, Some("A tool".to_string()));
}

#[test]
fn every_result_holds_the_query_as_a_subsequence() {
    let apps = registry();
    for query in ["e", "exe", "win", "sys32", "c:", "pa", "steam", "tt", "n t p"] {
        let found = search_apps(&apps, query);
        for hit in &found {
            assert!(
                is_subsequence_ignoring_case(query, &hit.name)
                    || is_subsequence_ignoring_case(query, &hit.path)
            );
        }
        let expected = apps
            .iter()
            .filter(|a| {
                is_subsequence_ignoring_case(query, &a.name)
                    || is_subsequence_ignoring_case(query, &a.path)
            })
            .count();
        assert_eq!(found.len(), expected);
    }
}

#[test]
fn repeated_searches_return_the_same_order() {
    let apps = registry();
    for query in ["e", "a", "exe", "t"] {
        let first = names(&search_apps(&apps, query));
        for _ in 0..3 {
            assert_eq!(names(&search_apps(&apps, query)), first);
        }
        assert_eq!(ranked_places(&apps, query), ranked_places(&apps, query));
    }
}

#[test]
fn ranked_places_point_into_the_registry() {
    let apps = registry();
    assert_eq!(ranked_places(&apps, "note"), vec![1, 3, 0, 2, 4]);
    assert_eq!(ranked_places(&apps, "notepad"), vec![1]);
    assert_eq!(ranked_places(&apps, "steam"), vec![5]);
}
