use breadbox::search::{push_probe, push_probes, Attempt, Candidate, Search, Step};

fn run(mut search: Search, there: &[&str]) -> (Option<String>, Vec<String>) {
    let mut tried: Vec<String> = Vec::new();
    loop {
        match search.next_step() {
            Step::Done(o) => return (o, tried),
            Step::Try(Attempt::Probe(p)) => {
                let ok = there.contains(&p.as_str());
                tried.push(p);
                search.report(ok);
            }
            Step::Try(Attempt::Fetch { url, dest }) => {
                let ok = there.contains(&url.as_str());
                tried.push(format!("{} -> {}", url, dest));
                search.report(ok);
            }
        }
    }
}

fn three() -> Vec<Candidate> {
    let mut out: Vec<Candidate> = Vec::new();
    push_probe(&mut out, "/a".to_string());
    push_probes(&mut out, &vec!["/b".to_string()]);
    out.push(Candidate {
        attempt: Attempt::Fetch { url: "https://x".to_string(), dest: "/x".to_string() },
        value: "got x".to_string(),
    });
    out
}

#[test]
fn the_first_success_is_found() {
    let (found, tried) = run(Search::new(three(), None), &["/b", "https://x"]);
    assert_eq!(found, Some("/b".to_string()));
    assert_eq!(tried, vec!["/a", "/b"]);
}

#[test]
fn a_fetch_may_be_what_is_found() {
    let (found, tried) = run(Search::new(three(), Some("f".to_string())), &["https://x"]);
    assert_eq!(found, Some("got x".to_string()));
    assert_eq!(tried, vec!["/a", "/b", "https://x -> /x"]);
}

#[test]
fn a_search_ends_with_its_fallback() {
    let (found, tried) = run(Search::new(three(), Some("f".to_string())), &[]);
    assert_eq!(found, Some("f".to_string()));
    assert_eq!(tried.len(), 3);
}

#[test]
fn nothing_is_found_only_if_all_fail() {
    assert_eq!(run(Search::new(three(), None), &[]).0, None);
    assert_eq!(run(Search::new(Vec::new(), None), &[]).0, None);
    assert_eq!(run(Search::new(three(), None), &["/a"]).0, Some("/a".to_string()));
}
