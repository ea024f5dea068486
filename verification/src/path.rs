//! Request paths and their segments.
//!
//! A path is text. Its segments are the pieces between `/` characters, after
//! one leading `/` has been dropped: `/items/42` has the segments `items` and
//! `42`, `/items/` has `items` and the empty segment, and `/` has none.

use vstd::prelude::*;
use vstd::string::*;

verus! {

/// No character of `s` is a `/`.
pub open spec fn slash_free(s: Seq<char>) -> bool {
    forall|i: int| 0 <= i < s.len() ==> s[i] != '/'
}

/// The position of the first `/` of `s` at or after `from`, or `s.len()`
/// where there is none.
pub open spec fn next_slash(s: Seq<char>, from: int) -> int
    decreases s.len() - from,
{
    if from < 0 || from >= s.len() {
        s.len() as int
    } else if s[from] == '/' {
        from
    } else {
        next_slash(s, from + 1)
    }
}

/// The pieces of `s` between its `/` characters, in order. There is always
/// at least one piece: text without a `/` is its own single piece.
pub open spec fn pieces(s: Seq<char>) -> Seq<Seq<char>>
    decreases s.len(),
{
    let k = next_slash(s, 0);
    if k < 0 || k >= s.len() {
        seq![s]
    } else {
        seq![s.subrange(0, k)] + pieces(s.subrange(k + 1, s.len() as int))
    }
}

/// The pieces put together again, with a `/` between neighbours.
pub open spec fn joined(parts: Seq<Seq<char>>) -> Seq<char>
    decreases parts.len(),
{
    if parts.len() == 0 {
        Seq::empty()
    } else if parts.len() == 1 {
        parts[0]
    } else {
        parts[0] + seq!['/'] + joined(parts.skip(1))
    }
}

/// What is left of a path once one leading `/` is dropped.
pub open spec fn without_root(path: Seq<char>) -> Seq<char> {
    if path.len() > 0 && path[0] == '/' {
        path.skip(1)
    } else {
        path
    }
}

/// The segments of a request path.
pub open spec fn segments(path: Seq<char>) -> Seq<Seq<char>> {
    let body = without_root(path);
    if body.len() == 0 {
        Seq::empty()
    } else {
        pieces(body)
    }
}

/// The texts held by a vector of strings.
pub open spec fn texts(v: Seq<String>) -> Seq<Seq<char>> {
    Seq::new(v.len(), |i: int| v[i]@)
}

proof fn lemma_next_slash_bounds(s: Seq<char>, from: int)
    requires
        0 <= from <= s.len(),
    ensures
        from <= next_slash(s, from) <= s.len(),
        next_slash(s, from) < s.len() ==> s[next_slash(s, from)] == '/',
        forall|i: int| from <= i < next_slash(s, from) ==> s[i] != '/',
    decreases s.len() - from,
{
    if from < s.len() && s[from] != '/' {
        lemma_next_slash_bounds(s, from + 1);
    }
}

proof fn lemma_next_slash_is_first(s: Seq<char>, from: int, k: int)
    requires
        0 <= from <= k <= s.len(),
        forall|i: int| from <= i < k ==> s[i] != '/',
        k < s.len() ==> s[k] == '/',
    ensures
        next_slash(s, from) == k,
    decreases k - from,
{
    if from < k {
        lemma_next_slash_is_first(s, from + 1, k);
    }
}

/// Every piece is free of `/`, and joining the pieces gives the text back.
pub proof fn lemma_pieces_join(s: Seq<char>)
    ensures
        pieces(s).len() >= 1,
        forall|i: int| 0 <= i < pieces(s).len() ==> slash_free(#[trigger] pieces(s)[i]),
        joined(pieces(s)) == s,
    decreases s.len(),
{
    let k = next_slash(s, 0);
    lemma_next_slash_bounds(s, 0);
    if k < s.len() {
        let head = s.subrange(0, k);
        let tail = s.subrange(k + 1, s.len() as int);
        lemma_pieces_join(tail);
        let rest = pieces(tail);
        let all = seq![head] + rest;
        assert(all.skip(1) == rest);
        assert(all[0] == head);
        assert(joined(all) == head + seq!['/'] + joined(rest));
        assert(head + seq!['/'] + tail == s);
        assert forall|i: int| 0 <= i < all.len() implies slash_free(#[trigger] all[i]) by {
            if i > 0 {
                assert(all[i] == rest[i - 1]);
            }
        }
    }
}

/// The pieces of a text are the only way to cut it at every `/`: pieces
/// that are free of `/` and join to `s` are `pieces(s)`.
pub proof fn lemma_pieces_unique(s: Seq<char>, parts: Seq<Seq<char>>)
    requires
        parts.len() >= 1,
        forall|i: int| 0 <= i < parts.len() ==> slash_free(#[trigger] parts[i]),
        joined(parts) == s,
    ensures
        parts == pieces(s),
    decreases parts.len(),
{
    if parts.len() == 1 {
        lemma_next_slash_is_first(s, 0, s.len() as int);
        assert(parts == seq![s]);
    } else {
        let head = parts[0];
        let rest = parts.skip(1);
        let tail = joined(rest);
        assert(s == head + seq!['/'] + tail);
        assert(slash_free(head));
        assert forall|i: int| 0 <= i < head.len() implies s[i] != '/' by {
            assert(s[i] == head[i]);
        }
        lemma_next_slash_is_first(s, 0, head.len() as int);
        assert(s.subrange(0, head.len() as int) == head);
        assert(s.subrange(head.len() as int + 1, s.len() as int) == tail);
        assert forall|i: int| 0 <= i < rest.len() implies slash_free(#[trigger] rest[i]) by {
            assert(rest[i] == parts[i + 1]);
        }
        lemma_pieces_unique(tail, rest);
        assert(parts == seq![head] + rest);
    }
}

/// Cuts a path into its segments.
pub fn split_path(path: &str) -> (segs: Vec<String>)
    ensures
        texts(segs@) == segments(path@),
{
    let n: usize = path.unicode_len();
    let mut segs: Vec<String> = Vec::new();
    let mut start: usize = if n > 0 && path.get_char(0) == '/' {
        1
    } else {
        0
    };
    if start == n {
        assert(texts(segs@) == Seq::<Seq<char>>::empty());
        return segs;
    }
    let ghost body = without_root(path@);
    let ghost lead = start as int;
    assert(body == path@.skip(lead));
    let mut i: usize = start;
    while i < n
        invariant
            n == path@.len(),
            lead <= start <= i <= n,
            lead <= 1,
            body == path@.skip(lead),
            forall|j: int| start <= j < i ==> path@[j] != '/',
            pieces(body) == texts(segs@) + pieces(path@.subrange(start as int, n as int)),
        decreases n - i,
    {
        if path.get_char(i) == '/' {
            let ghost rest = path@.subrange(start as int, n as int);
            proof {
                assert forall|j: int| 0 <= j < i - start implies rest[j] != '/' by {
                    assert(rest[j] == path@[start + j]);
                }
                lemma_next_slash_is_first(rest, 0, i - start);
                assert(rest.subrange(0, i - start) == path@.subrange(start as int, i as int));
                assert(rest.subrange(i - start + 1, rest.len() as int) == path@.subrange(
                    i + 1,
                    n as int,
                ));
            }
            let piece = path.substring_char(start, i).to_owned();
            let ghost before = texts(segs@);
            segs.push(piece);
            assert(texts(segs@) == before + seq![piece@]);
            start = i + 1;
        }
        i = i + 1;
    }
    let ghost rest = path@.subrange(start as int, n as int);
    proof {
        assert forall|j: int| 0 <= j < rest.len() implies rest[j] != '/' by {
            assert(rest[j] == path@[start + j]);
        }
        lemma_next_slash_is_first(rest, 0, rest.len() as int);
    }
    let piece = path.substring_char(start, n).to_owned();
    let ghost before = texts(segs@);
    segs.push(piece);
    assert(texts(segs@) == before + seq![piece@]);
    assert(path@.skip(0) == path@);
    segs
}

} // verus!
