use synonym_finder::synonym::merriamwebster::MerriamWebster;
use synonym_finder::synonym::searcher::Searcher;
use synonym_finder::synonym::thesaurus::Thesaurus;
use synonym_finder::synonym::yourdictionary::YourDictionary;
use synonym_finder::synonym::{Finder, FinderError};
use synonym_finder::text::{chars_of, find_from_exec, matches_at_exec, rfind_exec, text_before_lt_exec};

fn strings(v: &[&str]) -> Vec<String> {
    v.iter().map(|s| s.to_string()).collect()
}

#[test]
fn merriam_webster_reads_the_synonym_list() {
    let body = "<html>intro <a class=\"\" href=\"/thesaurus/zzz\">zzz</a>\
<div class=\"thes-list syn-list\"><a class=\"\" href=\"/thesaurus/glad\">glad</a>, \
<a class=\"\" href=\"/thesaurus/joyful\">joyful</a></div>\
<div class=\"thes-list rel-list\"><a class=\"\" href=\"/thesaurus/x\">x</a></div></html>";
    let q = MerriamWebster::new_query("happy");
    assert!(MerriamWebster::accepts(body));
    let r = q.parse_body(body);
    assert_eq!(r.word, "happy");
    assert_eq!(r.synonyms, strings(&["glad", "joyful"]));
}

#[test]
fn merriam_webster_without_lists_reads_nothing() {
    let body = "<a class=\"\" href=\"/thesaurus/glad\">glad</a>";
    assert!(MerriamWebster::accepts(body));
    let r = MerriamWebster::new_query("w").parse_body(body);
    assert!(r.synonyms.is_empty());
}

#[test]
fn merriam_webster_refuses_lists_in_wrong_order() {
    let body = "thes-list rel-list ... thes-list syn-list";
    assert!(!MerriamWebster::accepts(body));
}

#[test]
fn merriam_webster_link_without_closing_bracket() {
    let body = "thes-list syn-list<a class=\"\" href=\"/thesaurus/ab<cd thes-list rel-list";
    let r = MerriamWebster::new_query("w").parse_body(body);
    assert_eq!(r.synonyms, strings(&["a class=\"\" href=\"/thesaurus/ab"]));
}

#[test]
fn merriam_webster_url_and_id() {
    let q = MerriamWebster::new_query("happy");
    assert_eq!(q.url(), "https://www.merriam-webster.com/thesaurus/happy");
    assert_eq!(MerriamWebster::get_id(), "MerriamWebster");
}

#[test]
fn your_dictionary_reads_synonym_links() {
    let body = "<p><a class=\"synonym-link\" href=\"/bright\">bright</a>\
<a class=\"other\">no</a><a class=\"synonym-link\">smart</a></p>";
    let q = YourDictionary::new_query("clever");
    assert!(YourDictionary::accepts(body));
    let r = q.parse_body(body);
    assert_eq!(r.word, "clever");
    assert_eq!(r.synonyms, strings(&["bright", "smart"]));
}

#[test]
fn your_dictionary_url_and_id() {
    let q = YourDictionary::new_query("clever");
    assert_eq!(q.url(), "https://thesaurus.yourdictionary.com/clever");
    assert_eq!(YourDictionary::get_id(), "YourDictionary");
}

#[test]
fn thesaurus_reads_the_synonyms_section() {
    let body = "<a href=\"/browse/before\">before</a> Compare Synonyms \
<a href=\"/browse/fast\">fast</a> <a href=\"/browse/quick\">quick</a>\
<span color=\"#1A1A1A\" font-size=\"16px\">Antonyms</span><a href=\"/browse/slow\">slow</a>";
    let q = Thesaurus::new_query("rapid");
    assert!(Thesaurus::accepts(body));
    let r = q.parse_body(body);
    assert_eq!(r.word, "rapid");
    assert_eq!(r.synonyms, strings(&["fast", "quick"]));
}

#[test]
fn thesaurus_without_heading_reads_nothing() {
    let body = "Compare Synonyms <a href=\"/browse/fast\">fast</a>";
    let r = Thesaurus::new_query("rapid").parse_body(body);
    assert!(r.synonyms.is_empty());
}

#[test]
fn thesaurus_piece_without_bracket() {
    let body = "Compare Synonyms href=\"/browse/plain<b<span color=\"#1A1A1A\" font-size=\"16px\"";
    let r = Thesaurus::new_query("w").parse_body(body);
    assert_eq!(r.synonyms, strings(&["plain"]));
}

#[test]
fn thesaurus_url_and_id() {
    let q = Thesaurus::new_query("rapid");
    assert_eq!(q.url(), "https://www.thesaurus.com/browse/rapid");
    assert_eq!(Thesaurus::get_id(), "Thesaurus");
}

#[test]
fn finder_error_message() {
    assert_eq!(FinderError.message(), "Error en el buscador de sinónimos");
}

#[test]
fn searcher_keeps_its_words() {
    let s = Searcher::new(strings(&["a", "b"]));
    assert_eq!(s.words(), &strings(&["a", "b"]));
}

#[test]
fn text_search_helpers() {
    let s = chars_of("abcabc");
    let p = chars_of("bc");
    assert_eq!(find_from_exec(&s, &p, 0), Some(1));
    assert_eq!(find_from_exec(&s, &p, 2), Some(4));
    assert_eq!(find_from_exec(&s, &p, 5), None);
    assert_eq!(rfind_exec(&s, &p), Some(4));
    assert_eq!(rfind_exec(&s, &chars_of("x")), None);
    assert!(matches_at_exec(&s, &p, 4));
    assert!(!matches_at_exec(&s, &p, 5));
    assert_eq!(text_before_lt_exec(&chars_of("ab<cd"), 1), chars_of("b"));
    assert_eq!(text_before_lt_exec(&chars_of("abcd"), 1), chars_of(""));
    assert_eq!(chars_of("ñá").len(), 2);
}
