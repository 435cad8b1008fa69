use std::cell::RefCell;

use pagewatch::myscraper::{classify_fetch, FetchOutcome, Scraper, Sender, Target};

struct FakeSender {
    // messages sent to this fake sender
    msgs: RefCell<Vec<String>>,
}

impl FakeSender {
    fn new() -> Self {
        FakeSender { msgs: RefCell::new(vec![]) }
    }
}

impl Sender for FakeSender {
    fn send(&self, addr: &str, t: &Target, msg: String) {
        self.msgs.borrow_mut().push(format!("[to {}] Target {}. msg: \n {}", addr, t.uri, msg));
    }
}

fn target(uri: &str, text: &str) -> Target {
    Target { uri: uri.to_string(), text: text.to_string(), ..Default::default() }
}

#[test]
fn test_handle_page_content() {
    let target = Target {
        uri: "test_handle_page_content_uri".to_string(),
        text: "meow".to_string(),
        ..Default::default()
    };
    let sender = FakeSender::new();
    let mut scraper = Scraper::new_in_memory(vec![], &sender).unwrap();
    let html = r#"
            <html>
         <li> meow </li>
         <li> cactus </li>
         <li> meow mathew </li>
            </html>
        "#;
    // The first scrape should give us one matching meow.
    scraper.handle_page_content(html, &target);
    assert_eq!(sender.msgs.borrow().len(), 2);

    // run again after deleting the cache , should have another match.
    let target_id = Scraper::<FakeSender>::target_id(&target);
    scraper.put_cache_entry(&target_id, "").unwrap();
    scraper.handle_page_content(html, &target);
    assert_eq!(sender.msgs.borrow().len(), 4);
}

#[test]
fn test_handle_page_content_caches() {
    let target = Target {
        uri: "test_handle_page_content_caches".to_string(),
        text: "meow".to_string(),
        ..Default::default()
    };
    let sender = FakeSender::new();
    let mut scraper = Scraper::new_in_memory(vec![], &sender).unwrap();
    let html = r#"
         <li> meow </li>
         <li> cactus </li>
        "#;
    scraper.handle_page_content(html, &target);
    // One message for the meow.
    assert_eq!(sender.msgs.borrow().len(), 1);
    // let's update the html to include a new element. A message should only be added for the
    // new one.
    let html = r#"
         <li> meow </li>
         <li> cactus </li>
         <li> another meow!!!! </li>
        "#;
    scraper.handle_page_content(html, &target);
    // Only an additional message should be appended.
    assert_eq!(sender.msgs.borrow().len(), 2);
    // New message should be different than the first.
    assert_ne!(sender.msgs.borrow()[0], sender.msgs.borrow()[1]);
}

#[test]
fn test_case_order_example() {
    let t = target("case_order_uri", "meow");
    let sender = FakeSender::new();
    let mut scraper = Scraper::new_in_memory(vec![], &sender).unwrap();
    let body = "<li>meow</li><li>cactus</li><li>meow mathew</li>";
    let reported = scraper.handle_page_content(body, &t);
    // Two distinct fragments, in order of first appearance.
    assert_eq!(reported, vec!["meow".to_string(), "meow mathew".to_string()]);
    assert_eq!(sender.msgs.borrow().len(), 2);
    assert!(sender.msgs.borrow()[0].contains("Found match: meow"));
    // The cache now holds the full newline-delimited fragment set.
    let key = Scraper::<FakeSender>::target_id(&t);
    assert_eq!(scraper.cache_entry(&key), Some("meow\nmeow mathew\n".to_string()));
}

#[test]
fn test_no_op_second_run() {
    let t = target("no_op_uri", "meow");
    let sender = FakeSender::new();
    let mut scraper = Scraper::new_in_memory(vec![], &sender).unwrap();
    let body = "<li>meow</li><li>meow mathew</li>";
    let first = scraper.handle_page_content(body, &t);
    assert_eq!(first.len(), 2);
    // Unchanged content: the second run reports nothing at all.
    let second = scraper.handle_page_content(body, &t);
    assert_eq!(second, Vec::<String>::new());
    assert_eq!(sender.msgs.borrow().len(), 2);
}

#[test]
fn test_new_fragment_detected() {
    let t = target("new_fragment_uri", "frag");
    let sender = FakeSender::new();
    let mut scraper = Scraper::new_in_memory(vec![], &sender).unwrap();
    let key = Scraper::<FakeSender>::target_id(&t);
    // Cache state {A}.
    scraper.put_cache_entry(&key, "frag one\n").unwrap();
    // Fetch yields {A, B}: exactly one notification, for B.
    let reported = scraper.handle_page_content("<li>frag one</li><li>frag two</li>", &t);
    assert_eq!(reported, vec!["frag two".to_string()]);
    assert_eq!(sender.msgs.borrow().len(), 1);
}

#[test]
fn test_removal_is_silent() {
    let t = target("removal_uri", "frag");
    let sender = FakeSender::new();
    let mut scraper = Scraper::new_in_memory(vec![], &sender).unwrap();
    let key = Scraper::<FakeSender>::target_id(&t);
    // Cache state {A, B}; the new fetch yields only {A}.
    scraper.put_cache_entry(&key, "frag one\nfrag two\n").unwrap();
    let reported = scraper.handle_page_content("<li>frag one</li>", &t);
    // Zero notifications, and the cache is overwritten to contain only {A}.
    assert_eq!(reported, Vec::<String>::new());
    assert_eq!(sender.msgs.borrow().len(), 0);
    assert_eq!(scraper.cache_entry(&key), Some("frag one\n".to_string()));
}

#[test]
fn test_failure_isolation() {
    let t1 = target("target1", "meow");
    let t2 = target("target2", "cactus");
    let t3 = target("target3", "cat");
    let sender = FakeSender::new();
    let mut scraper =
        Scraper::new_in_memory(vec![t1.clone(), t2.clone(), t3.clone()], &sender).unwrap();
    let outcomes = vec![
        (t1.clone(), FetchOutcome::Success("<li>meow-meow</li>".to_string())),
        (t2.clone(), FetchOutcome::Failure("404".to_string())),
        (t3.clone(), FetchOutcome::Success("<li>cat-meow</li>".to_string())),
    ];
    let reported = scraper.process_outcomes(&outcomes);
    // Exactly the matches of targets 1 and 3 are notified.
    assert_eq!(reported, vec!["meow-meow".to_string(), "cat-meow".to_string()]);
    assert_eq!(sender.msgs.borrow().len(), 2);
    assert_eq!(sender.msgs.borrow().iter().filter(|x| x.contains("target1")).count(), 1);
    assert_eq!(sender.msgs.borrow().iter().filter(|x| x.contains("target3")).count(), 1);
    // A metrics record with the non-OK status was written for target 2.
    let metrics = scraper.drain_metrics();
    assert_eq!(metrics.len(), 3);
    assert!(metrics.iter().any(|line| line.ends_with(",inc_req,target2,404")));
    assert_eq!(metrics.iter().filter(|line| line.ends_with(",OK")).count(), 2);
    // A second run over unchanged content reports nothing further.
    let reported_again = scraper.process_outcomes(&outcomes);
    assert_eq!(reported_again, Vec::<String>::new());
    assert_eq!(sender.msgs.borrow().len(), 2);
}

#[test]
fn test_content_change_renotifies() {
    let t = target("content_change_uri", "meow");
    let sender = FakeSender::new();
    let mut scraper = Scraper::new_in_memory(vec![], &sender).unwrap();
    let first_body = "<li>meow-meow</li>";
    let second_body = "<li>new meow who dis</li>";
    let r1 = scraper.handle_page_content(first_body, &t);
    assert_eq!(r1, vec!["meow-meow".to_string()]);
    // The content changes: only the new fragment is reported.
    let r2 = scraper.handle_page_content(second_body, &t);
    assert_eq!(r2, vec!["new meow who dis".to_string()]);
    // The old content returns: its fragment was dropped from tracked
    // state in between, so it is reported again.
    let r3 = scraper.handle_page_content(first_body, &t);
    assert_eq!(r3, vec!["meow-meow".to_string()]);
    assert_eq!(sender.msgs.borrow().len(), 3);
    assert!(sender.msgs.borrow()[2].contains("meow-meow"));
}

#[test]
fn test_classify_fetch() {
    match classify_fetch(Some(200), Some("body".to_string())) {
        FetchOutcome::Success(b) => assert_eq!(b, "body"),
        FetchOutcome::Failure(_) => panic!("2xx with a decoded body must be a success"),
    }
    match classify_fetch(Some(299), Some("x".to_string())) {
        FetchOutcome::Success(_) => {}
        FetchOutcome::Failure(_) => panic!("299 is a success status"),
    }
    match classify_fetch(Some(404), Some("error page".to_string())) {
        FetchOutcome::Success(_) => panic!("a non-2xx response is a failure even with a body"),
        FetchOutcome::Failure(s) => assert_eq!(s, "404"),
    }
    match classify_fetch(Some(300), Some("x".to_string())) {
        FetchOutcome::Success(_) => panic!("300 is not a success status"),
        FetchOutcome::Failure(s) => assert_eq!(s, "300"),
    }
    match classify_fetch(Some(200), None) {
        FetchOutcome::Success(_) => panic!("an undecodable body is a failure"),
        FetchOutcome::Failure(s) => assert_eq!(s, "200"),
    }
    match classify_fetch(None, None) {
        FetchOutcome::Success(_) => panic!("no response at all is a failure"),
        FetchOutcome::Failure(s) => assert_eq!(s, "unknown"),
    }
}

#[test]
fn test_cache_key_independence() {
    let ta = target("shared_uri", "alpha");
    let tb = target("shared_uri", "beta");
    let sender = FakeSender::new();
    let mut scraper = Scraper::new_in_memory(vec![], &sender).unwrap();
    let key_a = Scraper::<FakeSender>::target_id(&ta);
    let key_b = Scraper::<FakeSender>::target_id(&tb);
    assert_ne!(key_a, key_b);
    let body = "<li>alpha thing</li><li>beta thing</li>";
    scraper.handle_page_content(body, &ta);
    scraper.handle_page_content(body, &tb);
    assert_eq!(sender.msgs.borrow().len(), 2);
    // Clearing one target's entry does not affect the other's diffing.
    scraper.put_cache_entry(&key_a, "").unwrap();
    let b_again = scraper.handle_page_content(body, &tb);
    assert_eq!(b_again, Vec::<String>::new());
    let a_again = scraper.handle_page_content(body, &ta);
    assert_eq!(a_again, vec!["alpha thing".to_string()]);
}

#[test]
fn test_target_id_round_trip() {
    let t1 = target("u", "v");
    let t2 = target("u", "v");
    // Deterministic and stable for the same (uri, text) pair.
    assert_eq!(Scraper::<FakeSender>::target_id(&t1), Scraper::<FakeSender>::target_id(&t2));
    assert_eq!(Scraper::<FakeSender>::target_id(&t1), "u:v");
}

#[test]
fn test_unparseable_body_is_empty_document() {
    let t = target("garbage_uri", "meow");
    let sender = FakeSender::new();
    let mut scraper = Scraper::new_in_memory(vec![], &sender).unwrap();
    // A body with no matching fragments yields an empty cache value and no
    // notifications.
    let reported = scraper.handle_page_content("<<<<>>>> not html at all", &t);
    assert_eq!(reported, Vec::<String>::new());
    let key = Scraper::<FakeSender>::target_id(&t);
    assert_eq!(scraper.cache_entry(&key), Some("".to_string()));
}

#[test]
fn test_sender_line_format() {
    let t = target("u", "v");
    let line = pagewatch::myscraper::format_sender_line("a", &t, "m");
    assert_eq!(line, "[to a] Target u. msg: \n m");
    assert_eq!(pagewatch::myscraper::format_match_message("meow"), "Found match: meow");
}
