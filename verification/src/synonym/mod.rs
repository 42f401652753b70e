//! Looking up synonyms on thesaurus sites.
pub mod balancer;
pub mod finder_executor;
pub mod merriamwebster;
pub mod searcher;
pub mod thesaurus;
pub mod yourdictionary;

use vstd::prelude::*;

use crate::text::{
    find_from, find_from_exec, lemma_find_from, lemma_match_positions_from,
    lemma_text_before_lt_has_no_lt, lemma_text_before_lt_runs, match_positions, match_positions_from, matches_at, or_default,
    runs_to_lt, string_from_chars, string_views, text_before_lt, text_before_lt_exec,
};

verus! {

/// The synonyms that one site lists for a word.
#[derive(Debug)]
pub struct QueryResponse {
    pub word: String,
    pub synonyms: Vec<String>,
}

/// A search for synonyms that failed.
#[derive(Debug, Clone, Copy, PartialEq, Eq)]
pub struct FinderError;

impl FinderError {
    /// The message that describes the error.
    pub fn message(&self) -> (m: String)
        ensures
            m@ == "Error en el buscador de sinónimos"@,
    {
        "Error en el buscador de sinónimos".to_owned()
    }
}

/// A thesaurus site: how to ask it for the synonyms of a word and how to
/// read them off the page it answers with.
pub trait Finder: Sized {
    /// The word the query asks about.
    spec fn spec_word(&self) -> Seq<char>;

    /// The identifier by which the balancer knows the site.
    spec fn spec_id() -> Seq<char>;

    /// The address of the page for `word`.
    spec fn spec_url(word: Seq<char>) -> Seq<char>;

    /// Whether a page body can be read.
    spec fn spec_accepts(body: Seq<char>) -> bool;

    /// The synonyms listed in a page body.
    spec fn spec_synonyms(body: Seq<char>) -> Seq<Seq<char>>;

    /// A query for the synonyms of `word`.
    fn new_query(word: &str) -> (q: Self)
        ensures
            q.spec_word() == word@,
    ;

    /// The identifier of the site.
    fn get_id() -> (id: String)
        ensures
            id@ == Self::spec_id(),
    ;

    /// The address of the page to fetch.
    fn url(&self) -> (u: String)
        ensures
            u@ == Self::spec_url(self.spec_word()),
    ;

    /// Whether `parse_body` can read `body`.
    fn accepts(body: &str) -> (b: bool)
        ensures
            b == Self::spec_accepts(body@),
    ;

    /// The synonyms that a page body lists for the query's word.
    fn parse_body(&self, body: &str) -> (r: QueryResponse)
        requires
            Self::spec_accepts(body@),
        ensures
            r.word@ == self.spec_word(),
            string_views(r.synonyms@) == Self::spec_synonyms(body@),
    ;
}

/// The start of the text of a link whose opening pattern was found at `m`:
/// just after the next `>`, or one past `m` when there is none.
pub open spec fn link_start(s: Seq<char>, m: int) -> int {
    or_default(find_from(s, seq!['>'], m), m) + 1
}

/// The text of the link whose opening pattern was found at `m`.
pub open spec fn link_text(s: Seq<char>, m: int) -> Seq<char> {
    text_before_lt(s, link_start(s, m))
}

/// The texts of all the links opened by pattern `p` in `s`.
pub open spec fn link_texts(s: Seq<char>, p: Seq<char>) -> Seq<Seq<char>> {
    match_positions(s, p).map_values(|m: int| link_text(s, m))
}

/// `b` is where the text of a link opened at `m` starts: just after the
/// first `>` at or after `m`, or one past `m` when no `>` follows it.
pub open spec fn opens_after(s: Seq<char>, m: int, b: int) -> bool {
    ||| m < b <= s.len() && s[b - 1] == '>' && forall|j: int| m <= j < b - 1 ==> s[j] != '>'
    ||| b == m + 1 && forall|j: int| m <= j < s.len() ==> s[j] != '>'
}

/// The text of a link opened at `m` starts just after the next `>` and runs
/// up to the next `<`.
pub proof fn lemma_link_text_exact(s: Seq<char>, m: int)
    requires
        0 <= m < s.len(),
    ensures
        opens_after(s, m, link_start(s, m)),
        link_start(s, m) <= s.len(),
        runs_to_lt(s, link_start(s, m), link_text(s, m)),
{
    lemma_find_from(s, seq!['>'], m);
    match find_from(s, seq!['>'], m) {
        Some(k) => {
            assert(s.subrange(k, k + 1)[0] == '>');
            assert forall|j: int| m <= j < k implies s[j] != '>' by {
                if s[j] == '>' {
                    assert(s.subrange(j, j + 1) =~= seq!['>']);
                    assert(matches_at(s, seq!['>'], j));
                }
            }
        },
        None => {
            assert forall|j: int| m <= j < s.len() implies s[j] != '>' by {
                if s[j] == '>' {
                    assert(s.subrange(j, j + 1) =~= seq!['>']);
                    assert(matches_at(s, seq!['>'], j));
                }
            }
        },
    }
    lemma_text_before_lt_runs(s, link_start(s, m));
}

/// The link texts of `s` are, one for each occurrence of `p` that
/// `match_positions` lists, the text that starts after the next `>` and runs
/// up to the next `<`.
pub proof fn lemma_link_texts_exact(s: Seq<char>, p: Seq<char>)
    requires
        p.len() > 0,
    ensures
        link_texts(s, p).len() == match_positions(s, p).len(),
        forall|k: int|
            0 <= k < link_texts(s, p).len() ==> matches_at(s, p, match_positions(s, p)[k])
                && exists|b: int|
                #[trigger] opens_after(s, match_positions(s, p)[k], b) && runs_to_lt(
                    s,
                    b,
                    link_texts(s, p)[k],
                ),
{
    assert forall|k: int| 0 <= k < link_texts(s, p).len() implies matches_at(
        s,
        p,
        match_positions(s, p)[k],
    ) && exists|b: int|
        #[trigger] opens_after(s, match_positions(s, p)[k], b) && runs_to_lt(
            s,
            b,
            link_texts(s, p)[k],
        ) by {
        let m = match_positions(s, p)[k];
        lemma_match_positions_from(s, p, 0, k);
        lemma_link_text_exact(s, m);
        assert(link_texts(s, p)[k] == link_text(s, m));
        assert(opens_after(s, m, link_start(s, m)));
    }
}

/// The text of a link holds no `<`: no markup is taken for a synonym.
pub proof fn lemma_link_texts_have_no_lt(s: Seq<char>, p: Seq<char>)
    requires
        p.len() > 0,
    ensures
        forall|i: int| 0 <= i < link_texts(s, p).len() ==> !(#[trigger] link_texts(s, p)[i]).contains('<'),
{
    assert forall|i: int| 0 <= i < link_texts(s, p).len() implies !(#[trigger] link_texts(
        s,
        p,
    )[i]).contains('<') by {
        let m = match_positions(s, p)[i];
        lemma_match_positions_from(s, p, 0, i);
        lemma_find_from(s, seq!['>'], m);
        lemma_text_before_lt_has_no_lt(s, link_start(s, m));
    }
}

/// The texts of all the links opened by pattern `p` in `s`.
pub fn link_texts_exec(s: &[char], p: &[char]) -> (r: Vec<String>)
    requires
        p@.len() > 0,
    ensures
        string_views(r@) == link_texts(s@, p@),
{
    let gt = ['>'];
    assert(gt@ =~= seq!['>']);
    let ghost all = link_texts(s@, p@);
    let mut r: Vec<String> = Vec::new();
    let mut from: usize = 0;
    proof {
        assert(string_views(r@) + match_positions_from(s@, p@, 0).map_values(
            |m: int| link_text(s@, m),
        ) =~= all);
    }
    loop
        invariant
            p@.len() > 0,
            gt@ == seq!['>'],
            all == link_texts(s@, p@),
            from <= s@.len(),
            string_views(r@) + match_positions_from(s@, p@, from as int).map_values(
                |m: int| link_text(s@, m),
            ) == all,
        decreases s@.len() - from,
    {
        proof {
            lemma_find_from(s@, p@, from as int);
        }
        match find_from_exec(s, p, from) {
            None => {
                proof {
                    assert(string_views(r@) =~= string_views(r@) + match_positions_from(
                        s@,
                        p@,
                        from as int,
                    ).map_values(|m: int| link_text(s@, m)));
                }
                return r;
            },
            Some(i) => {
                let ghost rest = match_positions_from(s@, p@, i + p@.len());
                assert(match_positions_from(s@, p@, from as int) == seq![i as int] + rest);
                proof {
                    lemma_find_from(s@, seq!['>'], i as int);
                }
                assert(matches_at(s@, p@, i as int));
                assert(i < s@.len());
                assert(s@.len() == s.len());
                let beg = match find_from_exec(s, &gt, i) {
                    Some(k) => {
                        assert(matches_at(s@, seq!['>'], k as int));
                        k + 1
                    },
                    None => i + 1,
                };
                let t = text_before_lt_exec(s, beg);
                let text = string_from_chars(t.as_slice());
                let ghost before = string_views(r@);
                r.push(text);
                proof {
                    assert(string_views(r@) =~= before.push(link_text(s@, i as int)));
                    assert((seq![i as int] + rest).map_values(|m: int| link_text(s@, m))
                        =~= seq![link_text(s@, i as int)] + rest.map_values(
                        |m: int| link_text(s@, m),
                    ));
                    assert(string_views(r@) + rest.map_values(|m: int| link_text(s@, m))
                        =~= before + (seq![i as int] + rest).map_values(
                        |m: int| link_text(s@, m),
                    ));
                }
                from = i + p.len();
            },
        }
    }
}

} // verus!
