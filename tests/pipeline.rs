use glabcidoc::{generate_markdown, merge_jobs, parse_jobs, render_selection, select_jobs, undocumented_names, Job};

fn job(name: &str, doc: Option<&str>) -> Job {
    Job { name: name.to_string(), doc: doc.map(|d| d.to_string()) }
}

fn names(jobs: &[Job]) -> Vec<String> {
    jobs.iter().map(|j| j.name.clone()).collect()
}

fn sample() -> Vec<Job> {
    vec![
        job(".tpl_doc", Some("template")),
        job(".tpl_bare", None),
        job("build", Some("builds")),
        job("test", None),
    ]
}

#[test]
fn later_file_overrides_earlier_job() {
    let a = parse_jobs("test:\n  script: x").unwrap();
    let b = parse_jobs("#= Runs tests\ntest:\n  script: y").unwrap();
    let merged = merge_jobs(&vec![a, b]);
    assert_eq!(merged.len(), 1);
    assert_eq!(merged[0].name, "test");
    assert_eq!(merged[0].doc.as_deref(), Some("Runs tests"));
}

#[test]
fn later_undocumented_job_replaces_documented_one() {
    let merged = merge_jobs(&vec![vec![job("x", Some("old"))], vec![job("x", None)]]);
    assert_eq!(merged.len(), 1);
    assert_eq!(merged[0].doc, None);
}

#[test]
fn duplicate_names_within_one_file_keep_the_last() {
    let merged = merge_jobs(&vec![vec![job("a", Some("1")), job("b", None), job("a", Some("2"))]]);
    assert_eq!(names(&merged), vec!["a", "b"]);
    assert_eq!(merged[0].doc.as_deref(), Some("2"));
}

#[test]
fn merged_jobs_are_ordered_by_name() {
    let lists = vec![vec![job("zeta", None), job("alpha", None)], vec![job("Beta", None), job(".hidden", None), job("alp", None)]];
    assert_eq!(names(&merge_jobs(&lists)), vec![".hidden", "Beta", "alp", "alpha", "zeta"]);
    let reversed: Vec<Vec<Job>> = lists.iter().rev().cloned().collect();
    assert_eq!(names(&merge_jobs(&reversed)), vec![".hidden", "Beta", "alp", "alpha", "zeta"]);
}

#[test]
fn order_is_by_code_point() {
    let merged = merge_jobs(&vec![vec![job("é", None), job("z", None), job("Z", None)]]);
    assert_eq!(names(&merged), vec!["Z", "z", "é"]);
}

#[test]
fn merging_twice_gives_the_same_output() {
    let lists = vec![vec![job("b", Some("1")), job("a", None)], vec![job("b", Some("2"))]];
    let mut twice = lists.clone();
    twice.extend(lists.iter().cloned());
    let once = generate_markdown(&select_jobs(&merge_jobs(&lists), false, false));
    let again = generate_markdown(&select_jobs(&merge_jobs(&twice), false, false));
    assert_eq!(once, again);
}

#[test]
fn merging_nothing_gives_nothing() {
    assert!(merge_jobs(&vec![]).is_empty());
    assert!(merge_jobs(&vec![vec![], vec![]]).is_empty());
}

#[test]
fn only_hidden_keeps_hidden_jobs() {
    let jobs = vec![job(".hidden_template", None), job("build", None)];
    assert_eq!(names(&select_jobs(&jobs, true, false)), vec![".hidden_template"]);
}

#[test]
fn only_documented_keeps_documented_jobs() {
    assert_eq!(names(&select_jobs(&sample(), false, true)), vec![".tpl_doc", "build"]);
}

#[test]
fn both_filters_give_the_intersection() {
    let both = names(&select_jobs(&sample(), true, true));
    assert_eq!(both, vec![".tpl_doc"]);
    let chained = names(&select_jobs(&select_jobs(&sample(), true, false), false, true));
    assert_eq!(both, chained);
}

#[test]
fn no_filter_keeps_all() {
    assert_eq!(names(&select_jobs(&sample(), false, false)), names(&sample()));
}

#[test]
fn undocumented_jobs_are_named_for_warnings() {
    assert_eq!(undocumented_names(&sample()), vec![".tpl_bare", "test"]);
}

#[test]
fn job_renders_heading_and_doc() {
    assert_eq!(job("build", Some("Builds\nthe app")).render(), "# `build`\n\nBuilds\nthe app");
    assert_eq!(job("test", None).render(), "# `test`");
}

#[test]
fn markdown_joins_jobs_with_blank_line() {
    let md = generate_markdown(&vec![job("a", Some("doc a")), job("b", None), job("c", Some("doc c"))]);
    assert_eq!(md, "# `a`\n\ndoc a\n\n# `b`\n\n# `c`\n\ndoc c");
}

#[test]
fn markdown_of_no_jobs_is_empty() {
    assert_eq!(generate_markdown(&vec![]), "");
}

#[test]
fn nothing_selected_means_nothing_to_generate() {
    let selected = select_jobs(&vec![job("build", None)], true, false);
    assert_eq!(render_selection(&selected), None);
}

#[test]
fn selection_is_rendered() {
    let selected = select_jobs(&sample(), true, false);
    assert_eq!(
        render_selection(&selected),
        Some("# `.tpl_doc`\n\ntemplate\n\n# `.tpl_bare`".to_string())
    );
}

#[test]
fn whole_pipeline_over_two_documents() {
    let a = parse_jobs("stages:\n  - build\n#= Builds\nbuild:\n  script: make\n.tpl:\n  image: x\n").unwrap();
    let b = parse_jobs("#= Tests\ntest:\n  script: t\n#= Template\n.tpl:\n").unwrap();
    let merged = merge_jobs(&vec![a, b]);
    let md = render_selection(&select_jobs(&merged, false, false)).unwrap();
    assert_eq!(md, "# `.tpl`\n\nTemplate\n\n# `build`\n\nBuilds\n\n# `test`\n\nTests");
}
