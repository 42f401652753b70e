use synonym_finder::actors::messages::{RequestMessage, WordMessage};
use synonym_finder::actors::synonyms::merge_page_counters;
use synonym_finder::actors::yourdictionary::YourDictionaryActor;
use synonym_finder::counter::Counter;
use synonym_finder::synonym::finder_executor::counters_from_results;
use synonym_finder::synonym::thesaurus::Thesaurus;
use synonym_finder::synonym::{FinderError, QueryResponse};

const SEC: u64 = 1_000_000_000;

fn strings(v: &[&str]) -> Vec<String> {
    v.iter().map(|s| s.to_string()).collect()
}

fn counter(word: &str, synonyms: &[&str]) -> Counter {
    let mut c = Counter::with_word(word.to_string());
    c.count(&strings(synonyms));
    c
}

#[test]
fn your_dictionary_actor_paces_requests() {
    let mut a = YourDictionaryActor::new();
    assert_eq!(a.sleep_if_necessary(5, 2 * SEC), 3);
    assert_eq!(a.last_search_time(), 5 * SEC);
    assert_eq!(a.sleep_if_necessary(5, 10 * SEC), 0);
    assert_eq!(a.last_search_time(), 10 * SEC);
    assert_eq!(a.sleep_if_necessary(5, 11 * SEC), 4);
    assert_eq!(a.last_search_time(), 15 * SEC);
}

#[test]
fn successive_requests_keep_the_cooldown() {
    let mut a = YourDictionaryActor::new();
    let mut sent = Vec::new();
    for now in [100 * SEC, 101 * SEC, 105 * SEC] {
        let wait = a.sleep_if_necessary(5, now);
        assert_eq!(now + wait * SEC, a.last_search_time());
        sent.push(a.last_search_time());
    }
    assert_eq!(sent, vec![100 * SEC, 105 * SEC, 110 * SEC]);
}

#[test]
fn default_actor_has_not_searched() {
    let mut a = YourDictionaryActor::default();
    assert_eq!(a.last_search_time(), 0);
    assert_eq!(a.sleep_if_necessary(1, 0), 1);
    assert_eq!(a.last_search_time(), SEC);
}

#[test]
fn first_page_counters_are_taken_as_they_are() {
    let res = vec![counter("a", &["x"]), counter("b", &["y"])];
    let merged = merge_page_counters(Vec::new(), res);
    assert_eq!(merged.len(), 2);
    assert_eq!(merged[0].word(), "a");
    assert_eq!(merged[1].counts().get(&"y".to_string()), 1);
}

#[test]
fn later_page_counters_are_added_by_position() {
    let counters = vec![counter("a", &["x"]), counter("b", &["y"])];
    let res = vec![counter("a", &["x", "z"])];
    let merged = merge_page_counters(counters, res);
    assert_eq!(merged.len(), 2);
    assert_eq!(merged[0].counts().get(&"x".to_string()), 2);
    assert_eq!(merged[0].counts().get(&"z".to_string()), 1);
    assert_eq!(merged[1].counts().get(&"y".to_string()), 1);
    assert_eq!(merged[1].counts().get(&"x".to_string()), 0);
}

#[test]
fn failed_searches_are_left_out() {
    let results = vec![
        Ok(QueryResponse { word: "a".to_string(), synonyms: strings(&["x", "x"]) }),
        Err(FinderError),
        Ok(QueryResponse { word: "b".to_string(), synonyms: strings(&[]) }),
    ];
    let cs = counters_from_results(&results);
    assert_eq!(cs.len(), 2);
    assert_eq!(cs[0].word(), "a");
    assert_eq!(cs[0].counts().get(&"x".to_string()), 2);
    assert_eq!(cs[1].word(), "b");
    assert!(cs[1].ranking().is_empty());
}

#[test]
fn counter_from_response() {
    let r = QueryResponse { word: "w".to_string(), synonyms: strings(&["p", "q", "p"]) };
    let c = Counter::from_response(&r);
    assert_eq!(c.word(), "w");
    assert_eq!(c.ranking()[0], ("p".to_string(), 2));
}

#[test]
fn messages() {
    let m = RequestMessage::<Thesaurus>::new("hello");
    assert_eq!(m.word, "hello");
    let w = WordMessage { word: "hi".to_string(), page_cooldown: 3 };
    let d = w.to_dict_message();
    assert_eq!(d.word, "hi");
    assert_eq!(d.page_cooldown, 3);
}
