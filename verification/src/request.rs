//! The viewer's HTTP requests: which page a request line asks for, the
//! `key=value` pairs of a frame query, and the clamped frame settings.
//! Query values are numbers with a fractional part; reading them is left to
//! the caller.

use crate::render::RenderOpts;
use vstd::prelude::*;

verus! {

/// Unicode white space, as `char::is_whitespace` defines it.
pub open spec fn is_white(c: char) -> bool {
    let v = c as u32;
    (9 <= v <= 13) || v == 32 || v == 0x85 || v == 0xa0 || v == 0x1680 || (0x2000 <= v <= 0x200a) || v
        == 0x2028 || v == 0x2029 || v == 0x202f || v == 0x205f || v == 0x3000
}

/// The first position at or after `i` that is not white space.
pub open spec fn skip_white(s: Seq<char>, i: nat) -> nat
    decreases s.len() - i,
{
    if i >= s.len() {
        i
    } else if is_white(s[i as int]) {
        skip_white(s, i + 1)
    } else {
        i
    }
}

/// The first white-space position at or after `i`, or the end.
pub open spec fn word_end(s: Seq<char>, i: nat) -> nat
    decreases s.len() - i,
{
    if i >= s.len() {
        i
    } else if is_white(s[i as int]) {
        i
    } else {
        word_end(s, i + 1)
    }
}

/// The second white-space separated word of the request line (the request
/// target), or `/` when there is none.
pub open spec fn request_target(line: Seq<char>) -> Seq<char> {
    let e1 = word_end(line, skip_white(line, 0));
    let s2 = skip_white(line, e1);
    if s2 < line.len() {
        line.subrange(s2 as int, word_end(line, s2) as int)
    } else {
        seq!['/']
    }
}

pub open spec fn frame_prefix() -> Seq<char> {
    seq!['/', 'f', 'r', 'a', 'm', 'e']
}

/// Whether the target starts with `/frame`.
pub open spec fn is_frame_target(t: Seq<char>) -> bool {
    t.len() >= 6 && t.subrange(0, 6) == frame_prefix()
}

/// Whether `s` holds the character `c`.
pub open spec fn holds(s: Seq<char>, c: char) -> bool {
    exists|i: int| 0 <= i < s.len() && s[i] == c
}

/// What follows the first `?` of the target, or nothing when there is no
/// `?`.
pub open spec fn query_of(t: Seq<char>) -> Seq<char>
    decreases t.len(),
{
    if t.len() == 0 {
        Seq::empty()
    } else if t.last() == '?' && !holds(t.drop_last(), '?') {
        Seq::empty()
    } else if holds(t.drop_last(), '?') {
        query_of(t.drop_last()).push(t.last())
    } else {
        Seq::empty()
    }
}

/// `s` split at every `sep`, as `str::split` does: empty pieces are kept,
/// and an empty `s` gives one empty piece.
pub open spec fn pieces(s: Seq<char>, sep: char) -> Seq<Seq<char>>
    decreases s.len(),
{
    if s.len() == 0 {
        seq![Seq::<char>::empty()]
    } else {
        let r = pieces(s.drop_last(), sep);
        if s.last() == sep {
            r.push(Seq::empty())
        } else {
            r.update(r.len() - 1, r.last().push(s.last()))
        }
    }
}

/// A query piece split at its first `=`: the key, and the value when there
/// is an `=`.
pub open spec fn key_value(p: Seq<char>) -> (Seq<char>, Option<Seq<char>>)
    decreases p.len(),
{
    if p.len() == 0 {
        (Seq::empty(), None)
    } else {
        let (k, v) = key_value(p.drop_last());
        match v {
            None => if p.last() == '=' {
                (k, Some(Seq::empty()))
            } else {
                (k.push(p.last()), None)
            },
            Some(vv) => (k, Some(vv.push(p.last()))),
        }
    }
}

/// One `key=value` pair of a frame query.
pub struct QueryPair {
    pub key: Vec<char>,
    /// `None` when the piece has no `=`.
    pub value: Option<Vec<char>>,
}

impl QueryPair {
    pub open spec fn as_pair(&self) -> (Seq<char>, Option<Seq<char>>) {
        (
            self.key@,
            match self.value {
                Some(v) => Some(v@),
                None => None,
            },
        )
    }
}

/// What a request asks for.
pub enum Route {
    /// A rendered frame, with the query's pairs in order.
    Frame(Vec<QueryPair>),
    /// The viewer page.
    Page,
}

proof fn lemma_pieces_nonempty(s: Seq<char>, sep: char)
    ensures
        pieces(s, sep).len() >= 1,
    decreases s.len(),
{
    if s.len() > 0 {
        lemma_pieces_nonempty(s.drop_last(), sep);
    }
}

fn chars_of(s: &str) -> (v: Vec<char>)
    ensures
        v@ == s@,
{
    let mut v: Vec<char> = Vec::new();
    for c in it: s.chars()
        invariant
            v@ == it.seq().take(it.index() as int),
    {
        v.push(c);
        assert(v@ =~= it.seq().take(it.index() + 1));
    }
    assert(v@ =~= s@);
    v
}

fn is_white_char(c: char) -> (r: bool)
    ensures
        r == is_white(c),
{
    let v = c as u32;
    (9 <= v && v <= 13) || v == 32 || v == 0x85 || v == 0xa0 || v == 0x1680 || (0x2000 <= v && v
        <= 0x200a) || v == 0x2028 || v == 0x2029 || v == 0x202f || v == 0x205f || v == 0x3000
}

fn skip_white_from(s: &Vec<char>, i: usize) -> (r: usize)
    requires
        i <= s.len(),
    ensures
        r == skip_white(s@, i as nat),
        r <= s.len(),
{
    let mut j = i;
    while j < s.len() && is_white_char(s[j])
        invariant
            i <= j <= s.len(),
            skip_white(s@, j as nat) == skip_white(s@, i as nat),
        decreases s.len() - j,
    {
        j = j + 1;
    }
    j
}

fn word_end_from(s: &Vec<char>, i: usize) -> (r: usize)
    requires
        i <= s.len(),
    ensures
        r == word_end(s@, i as nat),
        i <= r <= s.len(),
{
    let mut j = i;
    while j < s.len() && !is_white_char(s[j])
        invariant
            i <= j <= s.len(),
            word_end(s@, j as nat) == word_end(s@, i as nat),
        decreases s.len() - j,
    {
        j = j + 1;
    }
    j
}

/// Splits a query into its `&`-separated pieces, each split at its first
/// `=`.
fn query_pairs(q: &Vec<char>) -> (r: Vec<QueryPair>)
    ensures
        r@.len() == pieces(q@, '&').len(),
        forall|i: int|
            0 <= i < r@.len() ==> #[trigger] r@[i].as_pair() == key_value(pieces(q@, '&')[i]),
{
    let mut out: Vec<QueryPair> = Vec::new();
    let mut key: Vec<char> = Vec::new();
    let mut value: Option<Vec<char>> = None;
    let mut i: usize = 0;
    while i < q.len()
        invariant
            i <= q.len(),
            out@.len() + 1 == pieces(q@.subrange(0, i as int), '&').len(),
            forall|j: int|
                0 <= j < out@.len() ==> #[trigger] out@[j].as_pair() == key_value(
                    pieces(q@.subrange(0, i as int), '&')[j],
                ),
            (QueryPair { key, value }).as_pair() == key_value(
                pieces(q@.subrange(0, i as int), '&').last(),
            ),
        decreases q.len() - i,
    {
        let c = q[i];
        let ghost pre = q@.subrange(0, i as int);
        let ghost next = q@.subrange(0, i + 1);
        proof {
            assert(next.drop_last() =~= pre);
            assert(next.last() == c);
            lemma_pieces_nonempty(pre, '&');
        }
        if c == '&' {
            let done = QueryPair { key, value };
            out.push(done);
            key = Vec::new();
            value = None;
            proof {
                let pn = pieces(next, '&');
                assert(pn == pieces(pre, '&').push(Seq::empty()));
                assert(key_value(Seq::<char>::empty()) == (Seq::<char>::empty(), None::<Seq<char>>));
                assert((QueryPair { key, value }).as_pair().0 =~= Seq::<char>::empty());
                assert forall|j: int| 0 <= j < out@.len() implies #[trigger] out@[j].as_pair()
                    == key_value(pn[j]) by {
                    if j < out@.len() - 1 {
                        assert(pn[j] == pieces(pre, '&')[j]);
                    }
                }
            }
        } else {
            let ghost old_pair = (QueryPair { key, value }).as_pair();
            let ghost cur = pieces(pre, '&').last();
            match value {
                None => {
                    if c == '=' {
                        value = Some(Vec::new());
                        proof {
                            assert(value.unwrap()@ =~= Seq::<char>::empty());
                        }
                    } else {
                        key.push(c);
                    }
                },
                Some(mut v) => {
                    v.push(c);
                    value = Some(v);
                },
            }
            proof {
                let pn = pieces(next, '&');
                let r = pieces(pre, '&');
                assert(pn == r.update(r.len() - 1, r.last().push(c)));
                assert(pn.last() == cur.push(c));
                assert(cur.push(c).drop_last() =~= cur);
                assert(key_value(cur.push(c)) == (QueryPair { key, value }).as_pair());
                assert forall|j: int| 0 <= j < out@.len() implies #[trigger] out@[j].as_pair()
                    == key_value(pn[j]) by {
                    assert(pn[j] == r[j]);
                }
            }
        }
        i = i + 1;
    }
    out.push(QueryPair { key, value });
    proof {
        assert(q@.subrange(0, i as int) =~= q@);
        let p = pieces(q@, '&');
        assert forall|j: int| 0 <= j < out@.len() implies #[trigger] out@[j].as_pair() == key_value(
            p[j],
        ) by {}
    }
    out
}

/// Where a request line leads: the second word is the target; a target
/// that starts with `/frame` asks for a frame, whose query (after the first
/// `?`) is split into pairs; any other target asks for the page.
pub fn route(line: &str) -> (r: Route)
    ensures
        match r {
            Route::Page => !is_frame_target(request_target(line@)),
            Route::Frame(pairs) => {
                let q = query_of(request_target(line@));
                &&& is_frame_target(request_target(line@))
                &&& pairs@.len() == count_of(q, '&') + 1
                &&& pairs@.len() == pieces(q, '&').len()
                &&& forall|i: int|
                    0 <= i < pairs@.len() ==> #[trigger] pairs@[i].as_pair() == key_value(
                        pieces(q, '&')[i],
                    )
            },
        },
{
    let s = chars_of(line);
    let s1 = skip_white_from(&s, 0);
    let e1 = word_end_from(&s, s1);
    let s2 = skip_white_from(&s, e1);
    let mut target: Vec<char> = Vec::new();
    if s2 < s.len() {
        let e2 = word_end_from(&s, s2);
        let mut k = s2;
        while k < e2
            invariant
                s2 <= k <= e2 <= s.len(),
                target@ == s@.subrange(s2 as int, k as int),
            decreases e2 - k,
        {
            target.push(s[k]);
            k = k + 1;
            assert(target@ =~= s@.subrange(s2 as int, k as int));
        }
    } else {
        target.push('/');
        assert(target@ =~= seq!['/']);
    }
    let ghost t = request_target(s@);
    assert(target@ == t);
    let is_frame = target.len() >= 6 && target[0] == '/' && target[1] == 'f' && target[2] == 'r'
        && target[3] == 'a' && target[4] == 'm' && target[5] == 'e';
    proof {
        if is_frame {
            assert(target@.subrange(0, 6) =~= frame_prefix());
        }
    }
    if !is_frame {
        proof {
            if target@.len() >= 6 && target@.subrange(0, 6) == frame_prefix() {
                assert(target@[0] == target@.subrange(0, 6)[0]);
                assert(target@[1] == target@.subrange(0, 6)[1]);
                assert(target@[2] == target@.subrange(0, 6)[2]);
                assert(target@[3] == target@.subrange(0, 6)[3]);
                assert(target@[4] == target@.subrange(0, 6)[4]);
                assert(target@[5] == target@.subrange(0, 6)[5]);
            }
        }
        return Route::Page;
    }
    let mut query: Vec<char> = Vec::new();
    let mut seen = false;
    let mut k: usize = 0;
    while k < target.len()
        invariant
            k <= target.len(),
            seen == holds(target@.subrange(0, k as int), '?'),
            query@ == query_of(target@.subrange(0, k as int)),
        decreases target.len() - k,
    {
        let ghost pre = target@.subrange(0, k as int);
        let ghost next = target@.subrange(0, k + 1);
        let c = target[k];
        proof {
            assert(next.drop_last() =~= pre);
            assert(next.last() == c);
        }
        if seen {
            query.push(c);
        } else if c == '?' {
            seen = true;
            proof {
                assert(next[k as int] == '?');
            }
        }
        k = k + 1;
        proof {
            if holds(next, '?') && !holds(pre, '?') {
                let w = choose|j: int| 0 <= j < next.len() && next[j] == '?';
                if w < pre.len() {
                    assert(pre[w] == '?');
                }
            }
            if holds(pre, '?') {
                let w = choose|j: int| 0 <= j < pre.len() && pre[j] == '?';
                assert(next[w] == '?');
            }
            assert(query@ =~= query_of(next));
        }
    }
    proof {
        assert(target@.subrange(0, k as int) =~= target@);
        lemma_pieces_split(query@, '&');
    }
    Route::Frame(query_pairs(&query))
}

/// The frame size and quality a request asks for, clamped: width to
/// 64..=1920, height to 48..=1080, supersampling to 1..=4 and depth to at
/// most 5.
pub struct FrameRequest {
    pub w: usize,
    pub h: usize,
    pub opts: RenderOpts,
}

pub open spec fn clamp(v: int, lo: int, hi: int) -> int {
    if v < lo {
        lo
    } else if v > hi {
        hi
    } else {
        v
    }
}

/// Clamps the requested width, height, supersampling and depth.
pub fn frame_request(w: usize, h: usize, samples: usize, depth: u32, threads: usize) -> (r:
    FrameRequest)
    ensures
        r.w == clamp(w as int, 64, 1920),
        r.h == clamp(h as int, 48, 1080),
        r.opts.samples == clamp(samples as int, 1, 4),
        r.opts.max_depth == clamp(depth as int, 0, 5),
        r.opts.threads == threads,
{
    let w = if w < 64 {
        64
    } else if w > 1920 {
        1920
    } else {
        w
    };
    let h = if h < 48 {
        48
    } else if h > 1080 {
        1080
    } else {
        h
    };
    let samples = if samples < 1 {
        1
    } else if samples > 4 {
        4
    } else {
        samples
    };
    let max_depth = if depth > 5 {
        5
    } else {
        depth
    };
    FrameRequest { w, h, opts: RenderOpts { samples, max_depth, threads } }
}


/// How many times `c` occurs in `s`.
pub open spec fn count_of(s: Seq<char>, c: char) -> nat
    decreases s.len(),
{
    if s.len() == 0 {
        0
    } else {
        count_of(s.drop_last(), c) + if s.last() == c {
            1nat
        } else {
            0nat
        }
    }
}

/// The pieces joined back together with `sep` between each two.
pub open spec fn joined(ps: Seq<Seq<char>>, sep: char) -> Seq<char>
    decreases ps.len(),
{
    if ps.len() == 0 {
        Seq::empty()
    } else if ps.len() == 1 {
        ps[0]
    } else {
        joined(ps.drop_last(), sep) + seq![sep] + ps.last()
    }
}

proof fn lemma_joined_extend_last(ps: Seq<Seq<char>>, sep: char, c: char)
    requires
        ps.len() >= 1,
    ensures
        joined(ps.update(ps.len() - 1, ps.last().push(c)), sep) == joined(ps, sep).push(c),
{
    let qs = ps.update(ps.len() - 1, ps.last().push(c));
    if ps.len() == 1 {
        assert(qs[0] == ps[0].push(c));
    } else {
        assert(qs.drop_last() =~= ps.drop_last());
        assert(qs.last() == ps.last().push(c));
        assert(joined(qs, sep) =~= joined(ps, sep).push(c));
    }
}

/// Splitting at `sep` gives one piece more than there are separators, no
/// piece holds the separator, and joining the pieces with the separator
/// gives back the text: so `s` is cut at every separator, however many.
pub proof fn lemma_pieces_split(s: Seq<char>, sep: char)
    ensures
        pieces(s, sep).len() == count_of(s, sep) + 1,
        forall|i: int| 0 <= i < pieces(s, sep).len() ==> !holds(#[trigger] pieces(s, sep)[i], sep),
        joined(pieces(s, sep), sep) == s,
    decreases s.len(),
{
    if s.len() == 0 {
        assert(pieces(s, sep) =~= seq![Seq::<char>::empty()]);
        assert(joined(pieces(s, sep), sep) =~= s);
    } else {
        let pre = s.drop_last();
        let c = s.last();
        lemma_pieces_split(pre, sep);
        let r = pieces(pre, sep);
        if c == sep {
            let p = r.push(Seq::<char>::empty());
            assert(p.drop_last() =~= r);
            assert(joined(p, sep) =~= pre + seq![sep] + Seq::<char>::empty());
            assert(pre + seq![sep] + Seq::<char>::empty() =~= s);
            assert forall|i: int| 0 <= i < p.len() implies !holds(#[trigger] p[i], sep) by {
                if i < r.len() {
                    assert(p[i] == r[i]);
                }
            }
        } else {
            let p = r.update(r.len() - 1, r.last().push(c));
            lemma_joined_extend_last(r, sep, c);
            assert(pre.push(c) =~= s);
            assert forall|i: int| 0 <= i < p.len() implies !holds(#[trigger] p[i], sep) by {
                if i < r.len() - 1 {
                    assert(p[i] == r[i]);
                } else {
                    let last = r.last();
                    assert(!holds(r[r.len() - 1], sep));
                    if holds(p[i], sep) {
                        let j = choose|j: int| 0 <= j < p[i].len() && p[i][j] == sep;
                        assert(p[i] == last.push(c));
                        if j < last.len() {
                            assert(last[j] == sep);
                        }
                    }
                }
            }
        }
    }
}

/// A piece split at its first `=`: with no `=` the key is the whole piece
/// and there is no value; otherwise the key holds no `=`, and the key, an
/// `=` and the value give back the piece.
pub proof fn lemma_key_value_split(p: Seq<char>)
    ensures
        match key_value(p) {
            (k, None) => k == p && !holds(p, '='),
            (k, Some(v)) => !holds(k, '=') && k + seq!['='] + v == p,
        },
    decreases p.len(),
{
    if p.len() > 0 {
        let pre = p.drop_last();
        let c = p.last();
        lemma_key_value_split(pre);
        match key_value(pre) {
            (k, None) => {
                if c == '=' {
                    assert(k + seq!['='] + Seq::<char>::empty() =~= p);
                } else {
                    assert(k.push(c) =~= p);
                    if holds(p, '=') {
                        let j = choose|j: int| 0 <= j < p.len() && p[j] == '=';
                        assert(pre[j] == '=');
                    }
                }
            },
            (k, Some(v)) => {
                assert(k + seq!['='] + v.push(c) =~= (k + seq!['='] + v).push(c));
            },
        }
    } else {
        assert(key_value(p).0 =~= p);
    }
}

} // verus!
