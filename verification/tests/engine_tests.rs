use crawler::crawler::Crawler;
use crawler::engine::EngineState;
use crawler::error::Error;
use crawler::script::{ScriptEntry, ScriptSpider};
use crawler::spiders::Spider;

fn s(x: &str) -> String {
    x.to_string()
}

fn strings(xs: &[&str]) -> Vec<String> {
    xs.iter().map(|x| s(x)).collect()
}

fn entry(url: &str, ok: bool, items: &[&str], urls: &[&str]) -> ScriptEntry {
    ScriptEntry { url: s(url), items: strings(items), urls: strings(urls), ok }
}

fn spider(start: &[&str], entries: Vec<ScriptEntry>) -> ScriptSpider {
    ScriptSpider { start: strings(start), entries, collected: Vec::new() }
}

#[test]
fn scenario_chain_dedup() {
    let mut sp = spider(
        &["A"],
        vec![entry("A", true, &["i1"], &["B", "A"]), entry("B", true, &[], &[])],
    );
    let st = Crawler::new(200, 2, 500).run(&mut sp);
    assert_eq!(st.visited, strings(&["A", "B"]));
    assert_eq!(sp.collected, strings(&["i1"]));
    assert!(st.is_quiescent());
    assert_eq!(st.items.len(), 0);
}

#[test]
fn scenario_two_seeds_sequential() {
    let mut sp = spider(
        &["A", "B"],
        vec![entry("A", true, &["ia"], &[]), entry("B", true, &["ib"], &[])],
    );
    let st = Crawler::new(0, 1, 1).run(&mut sp);
    assert_eq!(st.visited, strings(&["A", "B"]));
    assert_eq!(sp.collected, strings(&["ia", "ib"]));
    assert!(st.is_quiescent());
}

#[test]
fn scenario_fetch_failure() {
    let mut sp = spider(&["A"], vec![entry("A", false, &["ignored"], &["B"])]);
    let st = Crawler::new(0, 1, 1).run(&mut sp);
    assert_eq!(st.visited, strings(&["A"]));
    assert!(sp.collected.is_empty());
    assert!(st.is_quiescent());
}

#[test]
fn unknown_url_is_a_fetch_failure() {
    let mut sp = spider(&["Z"], vec![entry("A", true, &["i1"], &[])]);
    let st = Crawler::new(0, 1, 1).run(&mut sp);
    assert_eq!(st.visited, strings(&["Z"]));
    assert!(sp.collected.is_empty());
    assert!(st.is_quiescent());
}

#[test]
fn idempotent_seeding() {
    let mut sp = spider(&["A", "A"], vec![entry("A", true, &["i1"], &[])]);
    let st = Crawler::new(0, 1, 1).run(&mut sp);
    assert_eq!(st.visited, strings(&["A"]));
    assert_eq!(sp.collected, strings(&["i1"]));
}

#[test]
fn idempotent_seeding_state_level() {
    let mut st: EngineState<String> = EngineState::new();
    st.seed(strings(&["A"]));
    st.seed(strings(&["A"]));
    assert_eq!(st.visited, strings(&["A"]));
    assert_eq!(st.frontier, strings(&["A"]));
}

#[test]
fn empty_start_urls_terminate_immediately() {
    let mut sp = spider(&[], vec![entry("A", true, &["i1"], &[])]);
    let st = Crawler::new(0, 1, 1).run(&mut sp);
    assert!(st.visited.is_empty());
    assert!(sp.collected.is_empty());
    assert!(st.is_quiescent());
}

#[test]
fn item_order_within_one_fetch_is_kept() {
    let mut sp = spider(&["A"], vec![entry("A", true, &["i1", "i2", "i3"], &[])]);
    let _ = Crawler::new(0, 1, 1).run(&mut sp);
    assert_eq!(sp.collected, strings(&["i1", "i2", "i3"]));
}

#[test]
fn concurrent_duplicate_discoveries_fetch_once() {
    let mut sp = spider(
        &["A", "B"],
        vec![
            entry("A", true, &[], &["C"]),
            entry("B", true, &[], &["C"]),
            entry("C", true, &["ic"], &[]),
        ],
    );
    let st = Crawler::new(0, 2, 2).run(&mut sp);
    assert_eq!(st.visited, strings(&["A", "B", "C"]));
    assert_eq!(sp.collected, strings(&["ic"]));
}

#[test]
fn engine_steps_move_work_through_the_queues() {
    let mut st: EngineState<String> = EngineState::new();
    assert!(st.is_quiescent());
    st.seed(strings(&["A"]));
    assert!(!st.is_quiescent());

    let url = st.next_url();
    assert_eq!(url, Some(s("A")));
    assert_eq!(st.in_flight, 1);

    st.finish_fetch(Ok((strings(&["i1"]), strings(&["B"]))));
    assert_eq!(st.in_flight, 0);
    assert_eq!(st.items, strings(&["i1"]));

    let batch = st.poll_discovery();
    assert_eq!(batch, Some(strings(&["B"])));
    st.admit_urls(batch.unwrap());
    assert_eq!(st.visited, strings(&["A", "B"]));

    let url = st.next_url();
    assert_eq!(url, Some(s("B")));
    st.finish_fetch(Err(Error::Fetch(s("B"))));
    let batch = st.poll_discovery();
    assert_eq!(batch, Some(Vec::new()));
    st.admit_urls(batch.unwrap());

    assert_eq!(st.next_item(), Some(s("i1")));
    assert_eq!(st.next_item(), None);
    assert!(st.is_quiescent());
}

#[test]
fn failed_fetch_still_signals_completion() {
    let mut st: EngineState<String> = EngineState::new();
    st.seed(strings(&["A"]));
    let _ = st.next_url();
    st.finish_fetch(Err(Error::Fetch(s("A"))));
    assert_eq!(st.in_flight, 0);
    assert_eq!(st.discovery.len(), 1);
    assert!(st.discovery[0].is_empty());
    assert!(st.items.is_empty());
}

#[test]
fn queue_capacities_follow_concurrency() {
    let c = Crawler::new(200, 2, 500);
    assert_eq!(c.crawling_queue_capacity(), 800);
    assert_eq!(c.processing_queue_capacity(), 5000);
    assert_eq!(c.delay_ms, 200);
}

#[test]
fn fetch_outputs_forward_success_and_swallow_failure() {
    let ok: Result<(Vec<String>, Vec<String>), Error> =
        Ok((strings(&["i1", "i2"]), strings(&["B"])));
    assert_eq!(
        crawler::engine::fetch_outputs(ok),
        (strings(&["i1", "i2"]), strings(&["B"]))
    );
    let err: Result<(Vec<String>, Vec<String>), Error> = Err(Error::Fetch(s("A")));
    let (items, batch) = crawler::engine::fetch_outputs(err);
    assert!(items.is_empty());
    assert!(batch.is_empty());
}

#[test]
fn dedup_admit_hands_back_only_fresh_urls() {
    let mut visited = strings(&["A"]);
    let fresh = crawler::engine::dedup_admit(&mut visited, strings(&["A", "B", "B"]));
    assert_eq!(fresh, strings(&["B"]));
    assert_eq!(visited, strings(&["A", "B"]));
}

#[test]
fn quiescence_needs_all_three_empty() {
    assert!(crawler::engine::quiescence_reached(0, 0, 0));
    assert!(!crawler::engine::quiescence_reached(1, 0, 0));
    assert!(!crawler::engine::quiescence_reached(0, 1, 0));
    assert!(!crawler::engine::quiescence_reached(0, 0, 1));
}

#[test]
fn script_spider_has_a_static_name() {
    assert_eq!(
        <crawler::script::ScriptSpider as crawler::spiders::GetName>::get_name(),
        "script"
    );
    let sp = spider(&[], Vec::new());
    assert_eq!(sp.name(), "script");
}

#[test]
fn scrape_reports_script_outcomes() {
    let sp = spider(&[], vec![entry("A", true, &["i1"], &["B"]), entry("C", false, &[], &[])]);
    let ok = sp.scrape(s("A"));
    assert_eq!(ok.unwrap(), (strings(&["i1"]), strings(&["B"])));
    assert!(sp.scrape(s("C")).is_err());
    assert!(sp.scrape(s("missing")).is_err());
}
