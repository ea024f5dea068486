//! Path patterns: static segments, named dynamic segments and a trailing
//! wildcard.
//!
//! A pattern is written like a path. A segment that starts with `:` is
//! dynamic and named by what follows the colon; the segment `*` is the
//! wildcard; any other segment is static.

use crate::path::{segments, split_path, texts};
use crate::request::pairs;
use vstd::prelude::*;
use vstd::string::*;

verus! {

/// One segment of a pattern.
#[derive(Debug)]
pub enum Segment {
    /// Matches the segment that is this text.
    Static(String),
    /// Matches any segment that is not empty, and captures it under this name.
    Param(String),
    /// Matches whatever is left of the path, also nothing.
    Wildcard,
}

/// The mathematical value of a [`Segment`].
pub enum SegmentView {
    Static(Seq<char>),
    Param(Seq<char>),
    Wildcard,
}

impl View for Segment {
    type V = SegmentView;

    open spec fn view(&self) -> SegmentView {
        match self {
            Segment::Static(text) => SegmentView::Static(text@),
            Segment::Param(name) => SegmentView::Param(name@),
            Segment::Wildcard => SegmentView::Wildcard,
        }
    }
}

/// Why a text is no pattern.
#[derive(Clone, Copy, Debug, PartialEq, Eq, Structural)]
pub enum PatternError {
    /// A wildcard stands before the last segment.
    MisplacedWildcard,
    /// A dynamic segment has no name.
    UnnamedParam,
}

/// The segment of a pattern that `text` stands for.
pub open spec fn classify(text: Seq<char>) -> SegmentView {
    if text == seq!['*'] {
        SegmentView::Wildcard
    } else if text.len() > 0 && text[0] == ':' {
        SegmentView::Param(text.skip(1))
    } else {
        SegmentView::Static(text)
    }
}

/// The segments that the text of a pattern stands for.
pub open spec fn parsed(text: Seq<char>) -> Seq<SegmentView> {
    Seq::new(segments(text).len(), |i: int| classify(segments(text)[i]))
}

/// What is wrong with segment `i` of `p`, if anything.
pub open spec fn fault(p: Seq<SegmentView>, i: int) -> Option<PatternError> {
    match p[i] {
        SegmentView::Wildcard => if i != p.len() - 1 {
            Some(PatternError::MisplacedWildcard)
        } else {
            None
        },
        SegmentView::Param(name) => if name.len() == 0 {
            Some(PatternError::UnnamedParam)
        } else {
            None
        },
        SegmentView::Static(_) => None,
    }
}

/// `e` is what is wrong with the first segment of `p` that is at fault.
pub open spec fn rejects(p: Seq<SegmentView>, e: PatternError) -> bool {
    exists|i: int|
        {
            &&& 0 <= i < p.len()
            &&& #[trigger] fault(p, i) == Some(e)
            &&& forall|j: int| 0 <= j < i ==> fault(p, j) is None
        }
}

/// A wildcard stands only at the end, and every dynamic segment has a name.
pub open spec fn well_formed(p: Seq<SegmentView>) -> bool {
    forall|i: int| 0 <= i < p.len() ==> fault(p, i) is None
}

/// The pattern ends in a wildcard.
pub open spec fn open_ended(p: Seq<SegmentView>) -> bool {
    p.len() > 0 && p.last() is Wildcard
}

/// The number of segments before the trailing wildcard, or of all segments
/// where there is none.
pub open spec fn fixed_len(p: Seq<SegmentView>) -> int {
    if open_ended(p) {
        p.len() - 1
    } else {
        p.len() as int
    }
}

/// One segment of a pattern accepts one segment of a path.
pub open spec fn accepts(seg: SegmentView, text: Seq<char>) -> bool {
    match seg {
        SegmentView::Static(t) => text == t,
        SegmentView::Param(_) => text.len() > 0,
        SegmentView::Wildcard => true,
    }
}

/// The pattern matches the path with the segments `segs`: segment by segment
/// up to a trailing wildcard, which takes what is left, and with nothing
/// left over where there is none.
pub open spec fn matches_path(p: Seq<SegmentView>, segs: Seq<Seq<char>>) -> bool {
    &&& segs.len() >= fixed_len(p)
    &&& open_ended(p) || segs.len() == fixed_len(p)
    &&& forall|i: int| 0 <= i < fixed_len(p) ==> #[trigger] accepts(p[i], segs[i])
}

/// The pairs of name and value that the first `n` segments of `p` capture
/// from `segs`, in the order of the segments.
pub open spec fn captured_upto(p: Seq<SegmentView>, segs: Seq<Seq<char>>, n: int) -> Seq<
    (Seq<char>, Seq<char>),
>
    decreases n,
{
    if n <= 0 {
        Seq::empty()
    } else {
        let before = captured_upto(p, segs, n - 1);
        match p[n - 1] {
            SegmentView::Param(name) => before.push((name, segs[n - 1])),
            _ => before,
        }
    }
}

/// The pairs of name and value that `p` captures from a path that it
/// matches.
pub open spec fn captured(p: Seq<SegmentView>, segs: Seq<Seq<char>>) -> Seq<
    (Seq<char>, Seq<char>),
> {
    captured_upto(p, segs, fixed_len(p))
}

/// The static segments that stand for the texts `prefix`.
pub open spec fn statics(prefix: Seq<Seq<char>>) -> Seq<SegmentView> {
    Seq::new(prefix.len(), |i: int| SegmentView::Static(prefix[i]))
}

/// `segs` begins with the segments `prefix`.
pub open spec fn begins_with(segs: Seq<Seq<char>>, prefix: Seq<Seq<char>>) -> bool {
    segs.len() >= prefix.len() && segs.take(prefix.len() as int) == prefix
}

/// A pattern behind a static prefix matches a path exactly when the path
/// begins with the prefix and the pattern matches the rest; it then
/// captures what it captures from the rest.
pub proof fn lemma_prefixed_pattern(
    prefix: Seq<Seq<char>>,
    p: Seq<SegmentView>,
    segs: Seq<Seq<char>>,
)
    ensures
        matches_path(statics(prefix) + p, segs) <==> begins_with(segs, prefix) && matches_path(
            p,
            segs.skip(prefix.len() as int),
        ),
        matches_path(statics(prefix) + p, segs) ==> captured(statics(prefix) + p, segs) == captured(
            p,
            segs.skip(prefix.len() as int),
        ),
{
    let full = statics(prefix) + p;
    let k = prefix.len() as int;
    let rest = segs.skip(k);
    assert(open_ended(full) == open_ended(p)) by {
        if p.len() > 0 {
            assert(full.last() == p.last());
        } else if prefix.len() > 0 {
            assert(full.last() == statics(prefix).last());
        }
    }
    assert(fixed_len(full) == k + fixed_len(p));
    if matches_path(full, segs) {
        assert forall|i: int| 0 <= i < k implies segs.take(k)[i] == prefix[i] by {
            assert(accepts(full[i], segs[i]));
        }
        assert(segs.take(k) == prefix);
        assert forall|i: int| 0 <= i < fixed_len(p) implies #[trigger] accepts(p[i], rest[i]) by {
            assert(accepts(full[k + i], segs[k + i]));
        }
    }
    if begins_with(segs, prefix) && matches_path(p, rest) {
        assert forall|i: int| 0 <= i < fixed_len(full) implies #[trigger] accepts(
            full[i],
            segs[i],
        ) by {
            if i < k {
                assert(segs.take(k)[i] == prefix[i]);
            } else {
                assert(accepts(p[i - k], rest[i - k]));
            }
        }
    }
    if matches_path(full, segs) {
        lemma_captured_behind_prefix(prefix, p, segs, fixed_len(p));
    }
}

proof fn lemma_prefix_captures_nothing(
    prefix: Seq<Seq<char>>,
    p: Seq<SegmentView>,
    segs: Seq<Seq<char>>,
    n: int,
)
    requires
        0 <= n <= prefix.len(),
    ensures
        captured_upto(statics(prefix) + p, segs, n) == Seq::<(Seq<char>, Seq<char>)>::empty(),
    decreases n,
{
    if n > 0 {
        lemma_prefix_captures_nothing(prefix, p, segs, n - 1);
        assert((statics(prefix) + p)[n - 1] == statics(prefix)[n - 1]);
    }
}

proof fn lemma_captured_behind_prefix(
    prefix: Seq<Seq<char>>,
    p: Seq<SegmentView>,
    segs: Seq<Seq<char>>,
    n: int,
)
    requires
        0 <= n <= p.len(),
        prefix.len() + n <= segs.len(),
    ensures
        captured_upto(statics(prefix) + p, segs, prefix.len() + n) == captured_upto(
            p,
            segs.skip(prefix.len() as int),
            n,
        ),
    decreases n,
{
    let k = prefix.len() as int;
    if n == 0 {
        lemma_prefix_captures_nothing(prefix, p, segs, k);
    } else {
        lemma_captured_behind_prefix(prefix, p, segs, n - 1);
        assert((statics(prefix) + p)[k + n - 1] == p[n - 1]);
        assert(segs.skip(k)[n - 1] == segs[k + n - 1]);
    }
}

/// A parsed path pattern.
#[derive(Debug)]
pub struct Pattern {
    segments: Vec<Segment>,
}

impl View for Pattern {
    type V = Seq<SegmentView>;

    closed spec fn view(&self) -> Seq<SegmentView> {
        Seq::new(self.segments@.len(), |i: int| self.segments@[i]@)
    }
}

/// Tells whether a segment of a pattern is static.
pub fn is_static(text: &str) -> (b: bool)
    ensures
        b == (classify(text@) is Static),
{
    match read_segment(text) {
        Segment::Static(_) => true,
        _ => false,
    }
}

/// Reads one segment of a pattern.
fn read_segment(text: &str) -> (seg: Segment)
    ensures
        seg@ == classify(text@),
{
    let n: usize = text.unicode_len();
    if n == 1 && text.get_char(0) == '*' {
        assert(text@ == seq!['*']);
        Segment::Wildcard
    } else if n > 0 && text.get_char(0) == ':' {
        let name = text.substring_char(1, n).to_owned();
        assert(text@.subrange(1, n as int) == text@.skip(1));
        Segment::Param(name)
    } else {
        assert(text@ != seq!['*']) by {
            if text@ == seq!['*'] {
                assert(seq!['*'].len() == 1);
                assert(seq!['*'][0] == '*');
            }
        }
        Segment::Static(text.to_owned())
    }
}

impl Pattern {
    /// A wildcard stands only at the end, and every dynamic segment has a
    /// name.
    #[verifier::type_invariant]
    spec fn sound(self) -> bool {
        well_formed(self@)
    }

    /// Reads a pattern. The text is one exactly when a wildcard stands only
    /// at its end and every dynamic segment has a name; else the error
    /// tells what is wrong with the first segment that is at fault.
    pub fn parse(text: &str) -> (result: Result<Pattern, PatternError>)
        ensures
            match result {
                Ok(pattern) => pattern@ == parsed(text@) && well_formed(parsed(text@)),
                Err(e) => rejects(parsed(text@), e),
            },
    {
        let pieces = split_path(text);
        let ghost p = parsed(text@);
        let mut read: Vec<Segment> = Vec::new();
        let mut i: usize = 0;
        while i < pieces.len()
            invariant
                i <= pieces.len(),
                texts(pieces@) == segments(text@),
                p == parsed(text@),
                read@.len() == i,
                forall|j: int| 0 <= j < i ==> read@[j]@ == p[j],
                forall|j: int| 0 <= j < i ==> fault(p, j) is None,
            decreases pieces.len() - i,
        {
            assert(texts(pieces@)[i as int] == pieces@[i as int]@);
            let seg = read_segment(pieces[i].as_str());
            assert(seg@ == p[i as int]);
            match &seg {
                Segment::Wildcard => {
                    if i + 1 != pieces.len() {
                        assert(fault(p, i as int) == Some(PatternError::MisplacedWildcard));
                        return Err(PatternError::MisplacedWildcard);
                    }
                },
                Segment::Param(name) => {
                    if name.as_str().unicode_len() == 0 {
                        assert(fault(p, i as int) == Some(PatternError::UnnamedParam));
                        return Err(PatternError::UnnamedParam);
                    }
                },
                Segment::Static(_) => {},
            }
            read.push(seg);
            i = i + 1;
        }
        assert(Seq::new(read@.len(), |j: int| read@[j]@) == p);
        Ok(Pattern { segments: read })
    }

    /// The segments of the pattern.
    pub fn segments(&self) -> (segs: &Vec<Segment>)
        ensures
            segs@.len() == self@.len(),
            forall|i: int| 0 <= i < segs@.len() ==> (#[trigger] segs@[i])@ == self@[i],
    {
        &self.segments
    }

    /// Matches the pattern against a path, and gives what it captures.
    pub fn captures(&self, path: &str) -> (found: Option<Vec<(String, String)>>)
        ensures
            match found {
                Some(bag) => matches_path(self@, segments(path@)) && pairs(bag@) == captured(
                    self@,
                    segments(path@),
                ),
                None => !matches_path(self@, segments(path@)),
            },
    {
        let segs = split_path(path);
        assert(texts(segs@).skip(0) == texts(segs@));
        self.captures_from(&segs, 0)
    }

    /// Matches the pattern against the segments of a path from position
    /// `from` on, and gives what it captures.
    pub(crate) fn captures_from(&self, segs: &Vec<String>, from: usize) -> (found: Option<
        Vec<(String, String)>,
    >)
        requires
            from <= segs.len(),
        ensures
            match found {
                Some(bag) => matches_path(self@, texts(segs@).skip(from as int)) && pairs(bag@)
                    == captured(self@, texts(segs@).skip(from as int)),
                None => !matches_path(self@, texts(segs@).skip(from as int)),
            },
    {
        let ghost p = self@;
        let ghost rest = texts(segs@).skip(from as int);
        let n: usize = self.segments.len();
        let left: usize = segs.len() - from;
        let mut bag: Vec<(String, String)> = Vec::new();
        assert(pairs(bag@) == Seq::<(Seq<char>, Seq<char>)>::empty());
        let mut i: usize = 0;
        while i < n
            invariant
                i <= n,
                n == self.segments.len(),
                p == self@,
                p.len() == n,
                from <= segs.len(),
                left == segs.len() - from,
                rest == texts(segs@).skip(from as int),
                rest.len() == left,
                i <= fixed_len(p),
                i <= left,
                forall|j: int| 0 <= j < i ==> #[trigger] accepts(p[j], rest[j]),
                pairs(bag@) == captured_upto(p, rest, i as int),
            decreases n - i,
        {
            assert(p[i as int] == self.segments@[i as int]@);
            match &self.segments[i] {
                Segment::Wildcard => {
                    if i + 1 == n {
                        assert(p.last() is Wildcard);
                        return Some(bag);
                    }
                    if i >= left {
                        assert(fixed_len(p) > left);
                        return None;
                    }
                },
                Segment::Static(text) => {
                    if i >= left {
                        assert(fixed_len(p) > left);
                        return None;
                    }
                    assert(rest[i as int] == segs@[from + i]@);
                    if segs[from + i] != *text {
                        assert(!accepts(p[i as int], rest[i as int]));
                        return None;
                    }
                },
                Segment::Param(name) => {
                    if i >= left {
                        assert(fixed_len(p) > left);
                        return None;
                    }
                    assert(rest[i as int] == segs@[from + i]@);
                    if segs[from + i].as_str().unicode_len() == 0 {
                        assert(!accepts(p[i as int], rest[i as int]));
                        return None;
                    }
                    let ghost before = pairs(bag@);
                    bag.push((name.clone(), segs[from + i].clone()));
                    assert(pairs(bag@) == before.push((name@, rest[i as int])));
                },
            }
            i = i + 1;
        }
        if left == n {
            Some(bag)
        } else {
            None
        }
    }
}

} // verus!
