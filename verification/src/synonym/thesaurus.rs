//! Reading synonyms from https://www.thesaurus.com/browse/
use vstd::prelude::*;

use super::{Finder, QueryResponse};
use crate::text::{
    chars_of, find, find_from_exec, first_or_zero, last_or_zero, lemma_find_first,
    lemma_find_from, lemma_pieces_after_exact, lemma_rfind_before, lemma_rfind_last,
    lemma_text_before_lt_has_no_lt, lemma_text_before_lt_runs, match_positions, matches_at,
    or_default, pieces_after, pieces_after_from, rfind, rfind_exec, runs_to_lt,
    string_from_chars, string_views, text_before_lt, text_before_lt_exec,
};

verus! {

/// The part of a page that holds the synonyms: from the words
/// "Compare Synonyms" up to the last heading in the site's heading style.
pub open spec fn synonyms_section(body: Seq<char>) -> Seq<char> {
    let l = or_default(find(body, "Compare Synonyms"@), 0);
    let right = body.subrange(l, body.len() as int);
    let r = or_default(rfind(right, "<span color=\"#1A1A1A\" font-size=\"16px\""@), 0);
    right.subrange(0, r)
}

/// The text of a piece that follows a link address: from just after its
/// first `>` (or from its start when it has none) up to the next `<`.
pub open spec fn piece_text(e: Seq<char>) -> Seq<char> {
    let l = match find(e, seq!['>']) {
        Some(k) => k + 1,
        None => 0,
    };
    text_before_lt(e, l)
}

/// The synonyms read off a page hold no markup: none contains a `<`.
pub proof fn lemma_synonyms_have_no_markup(body: Seq<char>)
    ensures
        forall|i: int|
            0 <= i < Thesaurus::spec_synonyms(body).len() ==> !(
            #[trigger] Thesaurus::spec_synonyms(body)[i]).contains('<'),
{
    let pieces = pieces_after(synonyms_section(body), "href=\"/browse/"@);
    assert forall|i: int| 0 <= i < Thesaurus::spec_synonyms(body).len() implies !(
    #[trigger] Thesaurus::spec_synonyms(body)[i]).contains('<') by {
        let e = pieces[i];
        lemma_find_from(e, seq!['>'], 0);
        let l = match find(e, seq!['>']) {
            Some(k) => k + 1,
            None => 0,
        };
        lemma_text_before_lt_has_no_lt(e, l);
    }
}

/// `l` is where the text of a piece starts: just after its first `>`, or at
/// its start when it has none.
pub open spec fn piece_opens(e: Seq<char>, l: int) -> bool {
    ||| 0 < l <= e.len() && e[l - 1] == '>' && forall|j: int| 0 <= j < l - 1 ==> e[j] != '>'
    ||| l == 0 && forall|j: int| 0 <= j < e.len() ==> e[j] != '>'
}

/// The synonyms section of a page starts at the first "Compare Synonyms"
/// (or at the start) and runs up to the last heading in the site's heading
/// style after it (or is empty when there is none): every link between the
/// two is read, whatever headings come in between.
pub proof fn lemma_synonyms_section_exact(body: Seq<char>)
    ensures
        exists|l: int, r: int|
            #[trigger] first_or_zero(body, "Compare Synonyms"@, l) && #[trigger] last_or_zero(
                body.subrange(l, body.len() as int),
                "<span color=\"#1A1A1A\" font-size=\"16px\""@,
                r,
            ) && 0 <= l <= l + r <= body.len() && synonyms_section(body) == body.subrange(l, l + r),
{
    lemma_find_first(body, "Compare Synonyms"@);
    let l = or_default(find(body, "Compare Synonyms"@), 0);
    let right = body.subrange(l, body.len() as int);
    lemma_rfind_last(right, "<span color=\"#1A1A1A\" font-size=\"16px\""@);
    let r = or_default(rfind(right, "<span color=\"#1A1A1A\" font-size=\"16px\""@), 0);
    assert(right.subrange(0, r) =~= body.subrange(l, l + r));
    assert(first_or_zero(body, "Compare Synonyms"@, l));
    assert(last_or_zero(right, "<span color=\"#1A1A1A\" font-size=\"16px\""@, r));
}

/// The piece of `s` after the `k`-th listed occurrence (of length `plen`)
/// up to the next one, or to the end of `s`.
pub open spec fn piece_after(s: Seq<char>, pos: Seq<int>, k: int, plen: int) -> Seq<char> {
    s.subrange(
        pos[k] + plen,
        if k + 1 < pos.len() {
            pos[k + 1]
        } else {
            s.len() as int
        },
    )
}

/// `t` is the text of piece `e`: from just after its first `>` (or from its
/// start) up to the next `<`.
pub open spec fn is_piece_text(e: Seq<char>, t: Seq<char>) -> bool {
    exists|l: int| #[trigger] piece_opens(e, l) && runs_to_lt(e, l, t)
}

/// The synonyms read off a page are, one for each link address
/// `href="/browse/` of the synonyms section (found left to right), the text
/// of the piece that follows it up to the next address.
pub proof fn lemma_synonyms_exact(body: Seq<char>)
    ensures
        Thesaurus::spec_synonyms(body).len() == match_positions(
            synonyms_section(body),
            "href=\"/browse/"@,
        ).len(),
        forall|k: int|
            0 <= k < Thesaurus::spec_synonyms(body).len() ==> is_piece_text(
                piece_after(
                    synonyms_section(body),
                    match_positions(synonyms_section(body), "href=\"/browse/"@),
                    k,
                    "href=\"/browse/"@.len() as int,
                ),
                #[trigger] Thesaurus::spec_synonyms(body)[k],
            ),
{
    reveal_strlit("href=\"/browse/");
    let section = synonyms_section(body);
    let href = "href=\"/browse/"@;
    let pos = match_positions(section, href);
    lemma_pieces_after_exact(section, href, 0);
    let pieces = pieces_after(section, href);
    assert(Thesaurus::spec_synonyms(body).len() == pieces.len());
    assert forall|k: int| 0 <= k < Thesaurus::spec_synonyms(body).len() implies is_piece_text(
        piece_after(section, pos, k, href.len() as int),
        #[trigger] Thesaurus::spec_synonyms(body)[k],
    ) by {
        let e = pieces[k];
        assert(pieces_after_from(section, href, 0)[k] == piece_after(section, pos, k, href.len() as int));
        assert(Thesaurus::spec_synonyms(body)[k] == piece_text(e));
        lemma_find_from(e, seq!['>'], 0);
        let l = match find(e, seq!['>']) {
            Some(i) => i + 1,
            None => 0,
        };
        match find(e, seq!['>']) {
            Some(i) => {
                assert(e.subrange(i, i + 1)[0] == '>');
                assert forall|j: int| 0 <= j < i implies e[j] != '>' by {
                    if e[j] == '>' {
                        assert(e.subrange(j, j + 1) =~= seq!['>']);
                        assert(matches_at(e, seq!['>'], j));
                    }
                }
            },
            None => {
                assert forall|j: int| 0 <= j < e.len() implies e[j] != '>' by {
                    if e[j] == '>' {
                        assert(e.subrange(j, j + 1) =~= seq!['>']);
                        assert(matches_at(e, seq!['>'], j));
                    }
                }
            },
        }
        assert(piece_opens(e, l));
        lemma_text_before_lt_runs(e, l);
        assert(text_before_lt(e, l) == piece_text(e));
        assert(runs_to_lt(e, l, piece_text(e)));
    }
}

/// A query for the synonyms of a word on thesaurus.com.
pub struct Thesaurus {
    word: String,
}

/// The texts of the pieces of `s` that follow each link address `p`.
fn piece_texts(s: &[char], p: &[char]) -> (r: Vec<String>)
    requires
        p@.len() > 0,
    ensures
        string_views(r@) == pieces_after(s@, p@).map_values(|e: Seq<char>| piece_text(e)),
{
    let gt = ['>'];
    assert(gt@ =~= seq!['>']);
    let ghost all = pieces_after(s@, p@).map_values(|e: Seq<char>| piece_text(e));
    let mut r: Vec<String> = Vec::new();
    let mut from: usize = 0;
    proof {
        assert(string_views(r@) + pieces_after_from(s@, p@, 0).map_values(
            |e: Seq<char>| piece_text(e),
        ) =~= all);
    }
    loop
        invariant
            p@.len() > 0,
            gt@ == seq!['>'],
            all == pieces_after(s@, p@).map_values(|e: Seq<char>| piece_text(e)),
            from <= s@.len(),
            string_views(r@) + pieces_after_from(s@, p@, from as int).map_values(
                |e: Seq<char>| piece_text(e),
            ) == all,
        decreases s@.len() - from,
    {
        proof {
            lemma_find_from(s@, p@, from as int);
        }
        match find_from_exec(s, p, from) {
            None => {
                proof {
                    assert(string_views(r@) =~= string_views(r@) + pieces_after_from(
                        s@,
                        p@,
                        from as int,
                    ).map_values(|e: Seq<char>| piece_text(e)));
                }
                return r;
            },
            Some(i) => {
                assert(matches_at(s@, p@, i as int));
                assert(s@.len() == s.len());
                let start = i + p.len();
                proof {
                    lemma_find_from(s@, p@, start as int);
                }
                let end = match find_from_exec(s, p, start) {
                    Some(j) => j,
                    None => s.len(),
                };
                let piece = vstd::slice::slice_subrange(s, start, end);
                let ghost rest = pieces_after_from(s@, p@, start as int);
                assert(pieces_after_from(s@, p@, from as int) == seq![piece@] + rest);
                proof {
                    lemma_find_from(piece@, seq!['>'], 0);
                }
                let l = match find_from_exec(piece, &gt, 0) {
                    Some(k) => {
                        assert(matches_at(piece@, seq!['>'], k as int));
                        assert(piece@.len() == piece.len());
                        k + 1
                    },
                    None => 0,
                };
                let t = text_before_lt_exec(piece, l);
                let text = string_from_chars(t.as_slice());
                let ghost before = string_views(r@);
                r.push(text);
                proof {
                    assert(string_views(r@) =~= before.push(piece_text(piece@)));
                    assert((seq![piece@] + rest).map_values(|e: Seq<char>| piece_text(e))
                        =~= seq![piece_text(piece@)] + rest.map_values(
                        |e: Seq<char>| piece_text(e),
                    ));
                    assert(string_views(r@) + rest.map_values(|e: Seq<char>| piece_text(e))
                        =~= before + (seq![piece@] + rest).map_values(
                        |e: Seq<char>| piece_text(e),
                    ));
                }
                from = start;
            },
        }
    }
}

impl Finder for Thesaurus {
    closed spec fn spec_word(&self) -> Seq<char> {
        self.word@
    }

    open spec fn spec_id() -> Seq<char> {
        "Thesaurus"@
    }

    open spec fn spec_url(word: Seq<char>) -> Seq<char> {
        "https://www.thesaurus.com/browse/"@ + word
    }

    /// Every page can be read.
    open spec fn spec_accepts(body: Seq<char>) -> bool {
        true
    }

    /// The text after each link address `href="/browse/` of the synonyms
    /// section.
    open spec fn spec_synonyms(body: Seq<char>) -> Seq<Seq<char>> {
        pieces_after(synonyms_section(body), "href=\"/browse/"@).map_values(
            |e: Seq<char>| piece_text(e),
        )
    }

    fn new_query(word: &str) -> (q: Self) {
        Thesaurus { word: word.to_owned() }
    }

    fn get_id() -> (id: String) {
        "Thesaurus".to_owned()
    }

    fn url(&self) -> (u: String) {
        let mut u = "https://www.thesaurus.com/browse/".to_owned();
        u.append(self.word.as_str());
        u
    }

    fn accepts(body: &str) -> (b: bool) {
        true
    }

    fn parse_body(&self, body: &str) -> (r: QueryResponse) {
        let chars = chars_of(body);
        let compare = chars_of("Compare Synonyms");
        let heading = chars_of("<span color=\"#1A1A1A\" font-size=\"16px\"");
        let href = chars_of("href=\"/browse/");
        proof {
            reveal_strlit("href=\"/browse/");
            lemma_find_from(body@, "Compare Synonyms"@, 0);
        }
        let l = match find_from_exec(chars.as_slice(), compare.as_slice(), 0) {
            Some(i) => i,
            None => 0,
        };
        let right = vstd::slice::slice_subrange(chars.as_slice(), l, chars.len());
        proof {
            lemma_rfind_before(right@, heading@, right@.len() as int);
        }
        let r = match rfind_exec(right, heading.as_slice()) {
            Some(i) => i,
            None => 0,
        };
        let section = vstd::slice::slice_subrange(right, 0, r);
        let synonyms = piece_texts(section, href.as_slice());
        QueryResponse { word: self.word.clone(), synonyms }
    }
}

} // verus!
