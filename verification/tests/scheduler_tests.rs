use md_image_cache::mapping::{UrlMap, UrlSet};
use md_image_cache::naming::{compose_link, local_file_name};
use md_image_cache::pattern::{collect_urls, replace_urls};
use md_image_cache::scheduler::Scheduler;
use md_image_cache::{accept_status, Opts};

fn set_of(urls: &[&str]) -> UrlSet {
    let mut set = UrlSet::new();
    for u in urls {
        set.insert(u.to_string());
    }
    set
}

#[test]
fn concurrency_ceiling_respected() {
    let set = set_of(&["http://a", "http://b", "http://c", "http://d", "http://e"]);
    let mut sched = Scheduler::new(set, 2);
    let first = sched.try_dispatch();
    let second = sched.try_dispatch();
    let third = sched.try_dispatch();
    assert!(first.is_some());
    assert!(second.is_some());
    assert!(third.is_none());
    assert_eq!(sched.in_flight_len(), 2);
    // an outcome frees a slot
    let done = first.unwrap();
    assert!(sched.record_success(&done, "/img/a".to_string()));
    assert!(sched.try_dispatch().is_some());
    assert_eq!(sched.in_flight_len(), 2);
}

#[test]
fn each_url_dispatched_once() {
    let set = set_of(&["http://a", "http://b"]);
    let mut sched = Scheduler::new(set, 10);
    let mut seen = Vec::new();
    while let Some(u) = sched.try_dispatch() {
        assert!(!seen.contains(&u));
        seen.push(u.clone());
        sched.record_failure(&u);
    }
    assert_eq!(seen.len(), 2);
    assert!(sched.is_done());
}

#[test]
fn unknown_url_changes_nothing() {
    let set = set_of(&["http://a"]);
    let mut sched = Scheduler::new(set, 1);
    let u = sched.try_dispatch().unwrap();
    assert!(!sched.record_success(&"http://stranger".to_string(), "/img/x".to_string()));
    assert_eq!(sched.results_len(), 0);
    assert!(sched.record_success(&u, "/img/a".to_string()));
    assert_eq!(sched.results_len(), 1);
}

#[test]
fn partial_failure_yields_n_minus_one() {
    let set = set_of(&["http://a.example/1.png", "http://b.example/2.png", "http://bad.example/x"]);
    let mut sched = Scheduler::new(set, 3);
    while let Some(u) = sched.try_dispatch() {
        if u == "http://bad.example/x" {
            sched.record_failure(&u);
        } else {
            let link = compose_link("/images", &local_file_name(&u));
            sched.record_success(&u, link);
        }
    }
    assert!(sched.is_done());
    assert_eq!(sched.results_len(), 2);
    assert_eq!(sched.failed_len(), 1);
    let mapping = sched.finish();
    assert_eq!(mapping.len(), 2);
    assert!(mapping.get(&"http://bad.example/x".to_string()).is_none());

    // rewriting leaves the failed URL's occurrence unchanged, others rewritten
    let text = "![ok](http://a.example/1.png) ![gone](http://bad.example/x)";
    let out = replace_urls(text, &mapping);
    let link_a = mapping.get(&"http://a.example/1.png".to_string()).unwrap().clone();
    assert_eq!(out, format!("![ok]({}) ![gone](http://bad.example/x)", link_a));
}

#[test]
fn status_gate() {
    assert!(accept_status(200));
    assert!(!accept_status(404));
    assert!(!accept_status(301));
}

#[test]
fn opts_carries_configuration() {
    let opts = Opts {
        input: "source".to_string(),
        output_dir: "public/images".to_string(),
        link_prefix: "/images".to_string(),
        timeout_sec: 60,
        current_limit: 50,
    };
    assert_eq!(opts.link_prefix, "/images");
    assert_eq!(opts.current_limit, 50);
}

#[test]
fn end_to_end_two_documents() {
    let doc1 = "# one\n![good](http://good.example/pic.jpeg)\n";
    let doc2 = "two: ![again](http://good.example/pic.jpeg \"t\") and ![lost](http://bad.example/gone.png)\n";

    // extract: three constructs, two distinct URLs
    let mut set = UrlSet::new();
    collect_urls(doc1, &mut set);
    collect_urls(doc2, &mut set);
    assert_eq!(set.len(), 2);

    // fetch-and-materialize with one URL failing
    let mut sched = Scheduler::new(set, 8);
    while let Some(u) = sched.try_dispatch() {
        let fetched_ok = u != "http://bad.example/gone.png";
        if fetched_ok {
            let name = local_file_name(&u);
            let link = compose_link("/images", &name);
            sched.record_success(&u, link);
        } else {
            sched.record_failure(&u);
        }
    }
    assert!(sched.is_done());
    let mapping: UrlMap = sched.finish();
    assert_eq!(mapping.len(), 1);

    // the stored name is the URL's digest plus its inferred extension
    let link = mapping.get(&"http://good.example/pic.jpeg".to_string()).unwrap();
    assert_eq!(link, "/images/c3fecfc54bc40a170cadc54186ca2f0d031213ad.jpeg");

    // rewrite: doc1 fully rewritten, doc2 keeps the failed occurrence
    let out1 = replace_urls(doc1, &mapping);
    let out2 = replace_urls(doc2, &mapping);
    assert_eq!(
        out1,
        "# one\n![good](/images/c3fecfc54bc40a170cadc54186ca2f0d031213ad.jpeg)\n"
    );
    assert_eq!(
        out2,
        "two: ![again](/images/c3fecfc54bc40a170cadc54186ca2f0d031213ad.jpeg \"t\") and ![lost](http://bad.example/gone.png)\n"
    );
}
