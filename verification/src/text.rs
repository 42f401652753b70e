//! Searching inside text seen as a sequence of characters.
//!
//! Positions are character positions.  The patterns searched for in the
//! pages are made of ASCII characters, so a character position found here
//! cuts the text at the same place as the byte position that `str::find`
//! would give.
use vstd::prelude::*;

verus! {

/// The character sequences of a list of strings.
pub open spec fn string_views(v: Seq<String>) -> Seq<Seq<char>> {
    v.map_values(|s: String| s@)
}

/// `p` occurs in `s` starting at position `i`.
pub open spec fn matches_at(s: Seq<char>, p: Seq<char>, i: int) -> bool {
    &&& 0 <= i
    &&& i + p.len() <= s.len()
    &&& s.subrange(i, i + p.len()) == p
}

/// The first position at or after `from` where `p` occurs in `s`.
pub open spec fn find_from(s: Seq<char>, p: Seq<char>, from: int) -> Option<int>
    decreases s.len() - from,
{
    if from < 0 || from + p.len() > s.len() {
        None
    } else if matches_at(s, p, from) {
        Some(from)
    } else if from >= s.len() {
        None
    } else {
        find_from(s, p, from + 1)
    }
}

/// The first position where `p` occurs in `s`.
pub open spec fn find(s: Seq<char>, p: Seq<char>) -> Option<int> {
    find_from(s, p, 0)
}

/// The last position `i` with `i + p.len() <= end` where `p` occurs in `s`.
pub open spec fn rfind_before(s: Seq<char>, p: Seq<char>, end: int) -> Option<int>
    decreases end,
{
    if end < p.len() || end > s.len() {
        None
    } else if matches_at(s, p, end - p.len()) {
        Some(end - p.len())
    } else if end <= 0 {
        None
    } else {
        rfind_before(s, p, end - 1)
    }
}

/// The last position where `p` occurs in `s`.
pub open spec fn rfind(s: Seq<char>, p: Seq<char>) -> Option<int> {
    rfind_before(s, p, s.len() as int)
}

/// The value of an optional position, or `default` when there is none.
pub open spec fn or_default(o: Option<int>, default: int) -> int {
    match o {
        Some(i) => i,
        None => default,
    }
}

/// The positions of the non-overlapping occurrences of `p` in `s` at or
/// after `from`, found from left to right (as `str::match_indices` does).
pub open spec fn match_positions_from(s: Seq<char>, p: Seq<char>, from: int) -> Seq<int>
    decreases s.len() - from,
{
    if p.len() == 0 {
        Seq::empty()
    } else {
        match find_from(s, p, from) {
            None => Seq::empty(),
            Some(i) => {
                proof {
                    lemma_find_from(s, p, from);
                }
                seq![i] + match_positions_from(s, p, i + p.len())
            },
        }
    }
}

/// The positions of the non-overlapping occurrences of `p` in `s`.
pub open spec fn match_positions(s: Seq<char>, p: Seq<char>) -> Seq<int> {
    match_positions_from(s, p, 0)
}

/// The pieces of `s` that follow each occurrence of `p` at or after `from`,
/// each running up to the next occurrence or to the end of `s`: what
/// `str::split` gives, without the piece before the first occurrence.
pub open spec fn pieces_after_from(s: Seq<char>, p: Seq<char>, from: int) -> Seq<Seq<char>>
    decreases s.len() - from,
{
    if p.len() == 0 {
        Seq::empty()
    } else {
        match find_from(s, p, from) {
            None => Seq::empty(),
            Some(i) => {
                proof {
                    lemma_find_from(s, p, from);
                }
                let start = i + p.len();
                let end = or_default(find_from(s, p, start), s.len() as int);
                seq![s.subrange(start, end)] + pieces_after_from(s, p, start)
            },
        }
    }
}

/// The pieces of `s` between the occurrences of `p`, leaving out the piece
/// before the first occurrence.
pub open spec fn pieces_after(s: Seq<char>, p: Seq<char>) -> Seq<Seq<char>> {
    pieces_after_from(s, p, 0)
}

/// The text from `beg` up to the first `<` at or after it, or nothing when
/// no `<` follows.
pub open spec fn text_before_lt(s: Seq<char>, beg: int) -> Seq<char> {
    s.subrange(beg, or_default(find_from(s, seq!['<'], beg), beg))
}

/// What `find_from` gives: the first occurrence at or after `from`, if any.
pub proof fn lemma_find_from(s: Seq<char>, p: Seq<char>, from: int)
    ensures
        match find_from(s, p, from) {
            Some(i) => {
                &&& from <= i
                &&& matches_at(s, p, i)
                &&& forall|j: int| from <= j < i ==> !matches_at(s, p, j)
            },
            None => from >= 0 ==> forall|j: int| from <= j ==> !matches_at(s, p, j),
        },
    decreases s.len() - from,
{
    if from < 0 || from + p.len() > s.len() {
    } else if matches_at(s, p, from) {
    } else if from >= s.len() {
        assert(s.subrange(from, from + p.len()) =~= p);
    } else {
        lemma_find_from(s, p, from + 1);
    }
}

/// What `rfind_before` gives: the last occurrence ending at or before `end`.
pub proof fn lemma_rfind_before(s: Seq<char>, p: Seq<char>, end: int)
    requires
        end <= s.len(),
    ensures
        match rfind_before(s, p, end) {
            Some(i) => {
                &&& i + p.len() == end || i + p.len() < end
                &&& matches_at(s, p, i)
                &&& forall|j: int| i < j && j + p.len() <= end ==> !matches_at(s, p, j)
            },
            None => forall|j: int| j + p.len() <= end ==> !matches_at(s, p, j),
        },
    decreases end,
{
    if end < p.len() || end > s.len() {
    } else if matches_at(s, p, end - p.len()) {
    } else if end <= 0 {
    } else {
        lemma_rfind_before(s, p, end - 1);
    }
}

/// Every position listed by `match_positions_from` is an occurrence of `p`
/// at or after `from`.
pub proof fn lemma_match_positions_from(s: Seq<char>, p: Seq<char>, from: int, q: int)
    requires
        from >= 0,
        0 <= q < match_positions_from(s, p, from).len(),
    ensures
        from <= match_positions_from(s, p, from)[q],
        matches_at(s, p, match_positions_from(s, p, from)[q]),
    decreases s.len() - from,
{
    lemma_find_from(s, p, from);
    if p.len() > 0 {
        if let Some(i) = find_from(s, p, from) {
            if q > 0 {
                lemma_match_positions_from(s, p, i + p.len(), q - 1);
            }
        }
    }
}

/// The text before the next `<` holds no `<`.
pub proof fn lemma_text_before_lt_has_no_lt(s: Seq<char>, beg: int)
    requires
        0 <= beg <= s.len(),
    ensures
        !text_before_lt(s, beg).contains('<'),
{
    lemma_find_from(s, seq!['<'], beg);
    let t = text_before_lt(s, beg);
    if t.contains('<') {
        let j = choose|j: int| 0 <= j < t.len() && t[j] == '<';
        assert(s.subrange(beg + j, beg + j + 1) =~= seq!['<']);
        assert(matches_at(s, seq!['<'], beg + j));
    }
}

/// `i` is the first occurrence of `p` in `s`, or `0` when there is none.
pub open spec fn first_or_zero(s: Seq<char>, p: Seq<char>, i: int) -> bool {
    ||| matches_at(s, p, i) && forall|j: int| 0 <= j < i ==> !matches_at(s, p, j)
    ||| i == 0 && forall|j: int| 0 <= j ==> !matches_at(s, p, j)
}

/// `i` is the last occurrence of `p` in `s`, or `0` when there is none.
pub open spec fn last_or_zero(s: Seq<char>, p: Seq<char>, i: int) -> bool {
    ||| matches_at(s, p, i) && forall|j: int| i < j ==> !matches_at(s, p, j)
    ||| i == 0 && forall|j: int| 0 <= j ==> !matches_at(s, p, j)
}

/// `find` gives the first occurrence, or `0` by default.
pub proof fn lemma_find_first(s: Seq<char>, p: Seq<char>)
    ensures
        first_or_zero(s, p, or_default(find(s, p), 0)),
        0 <= or_default(find(s, p), 0) <= s.len(),
{
    lemma_find_from(s, p, 0);
}

/// `rfind` gives the last occurrence, or `0` by default.
pub proof fn lemma_rfind_last(s: Seq<char>, p: Seq<char>)
    ensures
        last_or_zero(s, p, or_default(rfind(s, p), 0)),
        0 <= or_default(rfind(s, p), 0) <= s.len(),
{
    lemma_rfind_before(s, p, s.len() as int);
    match rfind(s, p) {
        Some(i) => {
            assert forall|j: int| i < j implies !matches_at(s, p, j) by {
                if matches_at(s, p, j) {
                    assert(j + p.len() <= s.len());
                }
            }
        },
        None => {
            assert forall|j: int| 0 <= j implies !matches_at(s, p, j) by {
                if matches_at(s, p, j) {
                    assert(j + p.len() <= s.len());
                }
            }
        },
    }
}

/// The positions that `match_positions_from` lists are non-overlapping
/// occurrences in increasing order: each starts after the previous one ends.
pub proof fn lemma_match_positions_increasing(s: Seq<char>, p: Seq<char>, from: int)
    requires
        from >= 0,
        p.len() > 0,
    ensures
        forall|a: int, b: int|
            0 <= a < b < match_positions_from(s, p, from).len() ==> match_positions_from(s, p, from)[a]
                + p.len() <= match_positions_from(s, p, from)[b],
    decreases s.len() - from,
{
    let pos = match_positions_from(s, p, from);
    lemma_find_from(s, p, from);
    if let Some(i) = find_from(s, p, from) {
        let rest = match_positions_from(s, p, i + p.len());
        lemma_match_positions_increasing(s, p, i + p.len());
        assert(pos == seq![i] + rest);
        assert forall|a: int, b: int| 0 <= a < b < pos.len() implies pos[a] + p.len()
            <= pos[b] by {
            assert(pos[b] == rest[b - 1]);
            lemma_match_positions_from(s, p, i + p.len(), b - 1);
            if a > 0 {
                assert(pos[a] == rest[a - 1]);
            }
        }
    }
}

/// Every occurrence of `p` at or after `from` is listed by
/// `match_positions_from`, or lies inside a listed one.
pub proof fn lemma_match_positions_cover(s: Seq<char>, p: Seq<char>, from: int, j: int)
    requires
        from >= 0,
        p.len() > 0,
        from <= j,
        matches_at(s, p, j),
    ensures
        exists|k: int|
            0 <= k < match_positions_from(s, p, from).len() && #[trigger] match_positions_from(
                s,
                p,
                from,
            )[k] <= j < match_positions_from(s, p, from)[k] + p.len(),
    decreases s.len() - from,
{
    let pos = match_positions_from(s, p, from);
    lemma_find_from(s, p, from);
    if let Some(i) = find_from(s, p, from) {
        let rest = match_positions_from(s, p, i + p.len());
        assert(pos == seq![i] + rest);
        if j < i + p.len() {
            assert(pos[0] == i);
        } else {
            lemma_match_positions_cover(s, p, i + p.len(), j);
            let k = choose|k: int|
                0 <= k < rest.len() && #[trigger] rest[k] <= j < rest[k] + p.len();
            assert(pos[k + 1] == rest[k]);
        }
    }
}

/// The pieces that `pieces_after_from` gives are, for each listed
/// occurrence, the text from its end up to the next listed occurrence or the
/// end of `s`.
pub proof fn lemma_pieces_after_exact(s: Seq<char>, p: Seq<char>, from: int)
    requires
        from >= 0,
        p.len() > 0,
    ensures
        pieces_after_from(s, p, from).len() == match_positions_from(s, p, from).len(),
        forall|k: int|
            0 <= k < pieces_after_from(s, p, from).len() ==> #[trigger] pieces_after_from(s, p, from)[k]
                == s.subrange(
                match_positions_from(s, p, from)[k] + p.len(),
                if k + 1 < match_positions_from(s, p, from).len() {
                    match_positions_from(s, p, from)[k + 1]
                } else {
                    s.len() as int
                },
            ),
    decreases s.len() - from,
{
    lemma_find_from(s, p, from);
    match find_from(s, p, from) {
        None => {},
        Some(i) => {
            let start = i + p.len();
            lemma_pieces_after_exact(s, p, start);
            let pos = match_positions_from(s, p, from);
            let rest = match_positions_from(s, p, start);
            let pcs = pieces_after_from(s, p, from);
            let rpcs = pieces_after_from(s, p, start);
            assert(pos == seq![i] + rest);
            assert(pcs == seq![s.subrange(start, or_default(find_from(s, p, start), s.len() as int))]
                + rpcs);
            assert forall|k: int| 0 <= k < pcs.len() implies #[trigger] pcs[k] == s.subrange(
                pos[k] + p.len(),
                if k + 1 < pos.len() {
                    pos[k + 1]
                } else {
                    s.len() as int
                },
            ) by {
                if k == 0 {
                    lemma_find_from(s, p, start);
                    if rest.len() > 0 {
                        assert(pos[1] == rest[0]);
                    }
                } else {
                    assert(pcs[k] == rpcs[k - 1]);
                    assert(pos[k] == rest[k - 1]);
                    if k + 1 < pos.len() {
                        assert(pos[k + 1] == rest[k]);
                    }
                }
            }
        },
    }
}

/// `t` is the text of `s` from `b` up to the next `<`: it holds no `<` and
/// a `<` follows it, or it is empty and no `<` comes at or after `b`.
pub open spec fn runs_to_lt(s: Seq<char>, b: int, t: Seq<char>) -> bool {
    &&& 0 <= b
    &&& b + t.len() <= s.len()
    &&& s.subrange(b, b + t.len()) == t
    &&& !t.contains('<')
    &&& {
        ||| b + t.len() < s.len() && s[b + t.len()] == '<'
        ||| t.len() == 0 && forall|j: int| b <= j < s.len() ==> s[j] != '<'
    }
}

/// `text_before_lt` gives the text up to the next `<`.
pub proof fn lemma_text_before_lt_runs(s: Seq<char>, beg: int)
    requires
        0 <= beg <= s.len(),
    ensures
        runs_to_lt(s, beg, text_before_lt(s, beg)),
{
    lemma_find_from(s, seq!['<'], beg);
    lemma_text_before_lt_has_no_lt(s, beg);
    let t = text_before_lt(s, beg);
    match find_from(s, seq!['<'], beg) {
        Some(e) => {
            assert(s.subrange(e, e + 1)[0] == '<');
            assert(s[e] == '<');
        },
        None => {
            assert forall|j: int| beg <= j < s.len() implies s[j] != '<' by {
                if s[j] == '<' {
                    assert(s.subrange(j, j + 1) =~= seq!['<']);
                    assert(matches_at(s, seq!['<'], j));
                }
            }
        },
    }
    assert(s.subrange(beg, beg + t.len()) =~= t);
}

/// Whether `p` occurs in `s` at position `i`.
pub fn matches_at_exec(s: &[char], p: &[char], i: usize) -> (b: bool)
    ensures
        b == matches_at(s@, p@, i as int),
{
    if i > s.len() || p.len() > s.len() - i {
        return false;
    }
    let mut j: usize = 0;
    while j < p.len()
        invariant
            i + p.len() <= s.len(),
            j <= p.len(),
            forall|k: int| 0 <= k < j ==> s@[i + k] == p@[k],
        decreases p.len() - j,
    {
        if s[i + j] != p[j] {
            assert(s@.subrange(i as int, i + p@.len())[j as int] != p@[j as int]);
            return false;
        }
        j = j + 1;
    }
    assert(s@.subrange(i as int, i + p@.len()) =~= p@);
    true
}

/// The first position at or after `from` where `p` occurs in `s`.
pub fn find_from_exec(s: &[char], p: &[char], from: usize) -> (r: Option<usize>)
    ensures
        match r {
            Some(i) => find_from(s@, p@, from as int) == Some(i as int),
            None => find_from(s@, p@, from as int) is None,
        },
{
    if from > s.len() || p.len() > s.len() - from {
        return None;
    }
    let mut i = from;
    loop
        invariant
            from <= i,
            i + p.len() <= s.len(),
            find_from(s@, p@, from as int) == find_from(s@, p@, i as int),
        decreases s.len() - i,
    {
        if matches_at_exec(s, p, i) {
            return Some(i);
        }
        if i >= s.len() || p.len() > s.len() - (i + 1) {
            assert(find_from(s@, p@, i + 1) is None);
            return None;
        }
        i = i + 1;
    }
}

/// The last position where `p` occurs in `s`.
pub fn rfind_exec(s: &[char], p: &[char]) -> (r: Option<usize>)
    ensures
        match r {
            Some(i) => rfind(s@, p@) == Some(i as int),
            None => rfind(s@, p@) is None,
        },
{
    if p.len() > s.len() {
        return None;
    }
    let mut end = s.len();
    loop
        invariant
            p.len() <= end <= s.len(),
            rfind(s@, p@) == rfind_before(s@, p@, end as int),
        decreases end,
    {
        if matches_at_exec(s, p, end - p.len()) {
            return Some(end - p.len());
        }
        if end == 0 || end - 1 < p.len() {
            assert(end > 0 ==> rfind_before(s@, p@, end - 1) is None);
            return None;
        }
        end = end - 1;
    }
}

/// The text from `beg` up to the first `<` at or after it.
pub fn text_before_lt_exec(s: &[char], beg: usize) -> (t: Vec<char>)
    requires
        beg <= s.len(),
    ensures
        t@ == text_before_lt(s@, beg as int),
{
    let lt = ['<'];
    assert(lt@ =~= seq!['<']);
    let end = match find_from_exec(s, &lt, beg) {
        Some(e) => e,
        None => beg,
    };
    proof {
        lemma_find_from(s@, seq!['<'], beg as int);
    }
    let mut t: Vec<char> = Vec::new();
    let mut k = beg;
    while k < end
        invariant
            beg <= k <= end <= s.len(),
            t@ == s@.subrange(beg as int, k as int),
        decreases end - k,
    {
        t.push(s[k]);
        k = k + 1;
        assert(t@ =~= s@.subrange(beg as int, k as int));
    }
    t
}

/// The characters of a string slice.
pub fn chars_of(s: &str) -> (v: Vec<char>)
    ensures
        v@ == s@,
{
    let mut v: Vec<char> = Vec::new();
    for c in it: s.chars()
        invariant
            v@ == it.seq().take(it.index()),
    {
        v.push(c);
    }
    v
}

/// The string made of the given characters (`String: FromIterator<char>`).
#[verifier::external_body]
pub(crate) fn string_from_chars(cs: &[char]) -> (s: String)
    ensures
        s@ == cs@,
{
    cs.iter().collect()
}

} // verus!
