use glabcidoc::{parse_jobs, Job, ParseError};

fn job(name: &str, doc: Option<&str>) -> Job {
    Job { name: name.to_string(), doc: doc.map(|d| d.to_string()) }
}

fn names_and_docs(jobs: &[Job]) -> Vec<(String, Option<String>)> {
    jobs.iter().map(|j| (j.name.clone(), j.doc.clone())).collect()
}

fn malformed(content: &str) -> String {
    match parse_jobs(content) {
        Err(ParseError::MalformedJobLine(l)) => l,
        Ok(jobs) => panic!("expected a failure, got {:?}", jobs),
    }
}

#[test]
fn documented_job_is_found() {
    let jobs = parse_jobs("#= Builds the app\nbuild:\n  script: make").unwrap();
    assert_eq!(names_and_docs(&jobs), vec![("build".to_string(), Some("Builds the app".to_string()))]);
}

#[test]
fn orphan_doc_and_indented_lines_give_no_jobs() {
    let jobs = parse_jobs("default:\n#= orphan doc\nvariables:\n deploy:\n  script: x").unwrap();
    assert!(jobs.is_empty());
}

#[test]
fn line_without_colon_fails_naming_it() {
    assert_eq!(malformed("foo"), "foo");
}

#[test]
fn first_malformed_line_is_reported() {
    assert_eq!(malformed("a:\nfoo\nbar\nb:"), "foo");
}

#[test]
fn malformed_line_after_jobs_fails() {
    assert_eq!(malformed("#= doc\njob:\n\nnot a job"), "not a job");
}

#[test]
fn keyword_line_discards_pending_doc() {
    let jobs = parse_jobs("#= lost\nstages:\n  - build\n\nbuild:\n  script: make").unwrap();
    assert_eq!(names_and_docs(&jobs), vec![("build".to_string(), None)]);
}

#[test]
fn each_keyword_discards_pending_doc() {
    for kw in ["default:", "stages:", "variables:", "workflow:", "workflowish: x"] {
        let content = format!("#= lost\n{}\njob:", kw);
        let jobs = parse_jobs(&content).unwrap();
        assert_eq!(names_and_docs(&jobs), vec![("job".to_string(), None)], "{}", kw);
    }
}

#[test]
fn keyword_line_without_colon_is_not_malformed() {
    let jobs = parse_jobs("stages\njob:").unwrap();
    assert_eq!(jobs.len(), 1);
}

#[test]
fn ignored_lines_keep_pending_doc() {
    let content = "#= first\n\n---\n# plain comment\n  indented\n#= second\nlint:";
    let jobs = parse_jobs(content).unwrap();
    assert_eq!(names_and_docs(&jobs), vec![("lint".to_string(), Some("first\nsecond".to_string()))]);
}

#[test]
fn doc_block_attaches_to_one_job_only() {
    let jobs = parse_jobs("#= one\na:\nb:").unwrap();
    assert_eq!(
        names_and_docs(&jobs),
        vec![("a".to_string(), Some("one".to_string())), ("b".to_string(), None)]
    );
}

#[test]
fn name_is_text_before_last_colon() {
    let jobs = parse_jobs("deploy:prod: {stage: x}").unwrap();
    assert_eq!(jobs[0].name, "deploy:prod: {stage");
}

#[test]
fn empty_doc_line_still_documents() {
    let jobs = parse_jobs("#= \njob:").unwrap();
    assert_eq!(names_and_docs(&jobs), vec![("job".to_string(), Some(String::new()))]);
}

#[test]
fn marker_without_space_is_a_plain_comment() {
    let jobs = parse_jobs("#=nope\njob:").unwrap();
    assert_eq!(names_and_docs(&jobs), vec![("job".to_string(), None)]);
}

#[test]
fn crlf_line_endings_are_stripped() {
    let jobs = parse_jobs("#= Doc\r\nbuild:\r\n  script: x\r\n").unwrap();
    assert_eq!(names_and_docs(&jobs), vec![("build".to_string(), Some("Doc".to_string()))]);
}

#[test]
fn empty_document_has_no_jobs() {
    assert!(parse_jobs("").unwrap().is_empty());
    assert!(parse_jobs("\n\n").unwrap().is_empty());
}

#[test]
fn trailing_doc_block_is_dropped() {
    let jobs = parse_jobs("a:\n#= nobody").unwrap();
    assert_eq!(names_and_docs(&jobs), vec![("a".to_string(), None)]);
}

#[test]
fn non_ascii_text_is_kept() {
    let jobs = parse_jobs("#= Déploie l'appli ✓\ndéployer:").unwrap();
    assert_eq!(names_and_docs(&jobs), vec![("déployer".to_string(), Some("Déploie l'appli ✓".to_string()))]);
}

#[test]
fn hidden_and_documented_predicates() {
    assert!(job(".tpl", None).is_hidden());
    assert!(!job("build", None).is_hidden());
    assert!(!job("", None).is_hidden());
    assert!(job("a", Some("x")).is_documented());
    assert!(!job("a", None).is_documented());
}
