//! Patterns: literal text mixed with named placeholders.
//!
//! A pattern is written as text in which `{name}` stands for a placeholder.
//! Its structure is a sequence of segments, each a run of literal text or a
//! placeholder. A name is not empty and holds no brace; literal text holds no
//! brace either. Text that cannot be read this way is not a pattern.

use vstd::prelude::*;
use vstd::string::StrSliceExecFns;
use vstd::string::StringExecFns;
use crate::error::ErrorKind;
use crate::text::{chars_of, string_views};

verus! {

/// Whether `c` opens or closes a placeholder.
pub open spec fn is_brace(c: char) -> bool {
    c == '{' || c == '}'
}

/// Whether `s` holds no brace.
pub open spec fn brace_free(s: Seq<char>) -> bool {
    forall|i: int| 0 <= i < s.len() ==> !is_brace(#[trigger] s[i])
}

/// The number of characters of `s` before its first brace, or the length of
/// `s` where it has none.
pub open spec fn plain_prefix_len(s: Seq<char>) -> nat
    decreases s.len(),
{
    if s.len() == 0 || is_brace(s[0]) {
        0
    } else {
        1 + plain_prefix_len(s.skip(1))
    }
}

/// One segment of a pattern, as a mathematical value.
pub enum SegmentView {
    /// Text that a file name must hold as it stands.
    Literal(Seq<char>),
    /// A named placeholder, which stands for one or more characters.
    Placeholder(Seq<char>),
}

/// One segment of a pattern.
#[derive(Clone, Debug, PartialEq, Eq)]
pub enum Segment {
    /// Text that a file name must hold as it stands.
    Literal(String),
    /// A named placeholder, which stands for one or more characters.
    Placeholder(String),
}

impl View for Segment {
    type V = SegmentView;

    open spec fn view(&self) -> SegmentView {
        match self {
            Segment::Literal(text) => SegmentView::Literal(text@),
            Segment::Placeholder(name) => SegmentView::Placeholder(name@),
        }
    }
}

/// The views of a sequence of segments, in the same order.
pub open spec fn segment_views(segments: Seq<Segment>) -> Seq<SegmentView> {
    segments.map_values(|s: Segment| s@)
}

/// The text that one segment is written as.
pub open spec fn render_segment(segment: SegmentView) -> Seq<char> {
    match segment {
        SegmentView::Literal(text) => text,
        SegmentView::Placeholder(name) => seq!['{'] + name + seq!['}'],
    }
}

/// The text that a sequence of segments is written as.
pub open spec fn render(segments: Seq<SegmentView>) -> Seq<char>
    decreases segments.len(),
{
    if segments.len() == 0 {
        Seq::empty()
    } else {
        render_segment(segments[0]) + render(segments.skip(1))
    }
}

/// Whether a segment holds what a segment may hold: text that is not empty
/// and has no brace in it.
pub open spec fn valid_segment(segment: SegmentView) -> bool {
    match segment {
        SegmentView::Literal(text) => text.len() > 0 && brace_free(text),
        SegmentView::Placeholder(name) => name.len() > 0 && brace_free(name),
    }
}

/// Whether `segments` is the structure of some pattern: every segment is
/// valid, and literal text is never split over two neighbouring segments.
pub open spec fn canonical(segments: Seq<SegmentView>) -> bool {
    &&& forall|i: int| 0 <= i < segments.len() ==> valid_segment(#[trigger] segments[i])
    &&& forall|i: int|
        0 <= i < segments.len() - 1 ==> !(#[trigger] segments[i] is Literal && segments[i
            + 1] is Literal)
}

/// `first` put in front of `rest`, where there is a rest.
pub open spec fn prepend(first: SegmentView, rest: Option<Seq<SegmentView>>) -> Option<
    Seq<SegmentView>,
> {
    match rest {
        Some(segments) => Some(seq![first] + segments),
        None => None,
    }
}

/// The structure of the pattern written as `s`, or `None` where `s` is not a
/// pattern: where a brace is not closed or not opened, or a name is empty.
pub open spec fn parse_spec(s: Seq<char>) -> Option<Seq<SegmentView>>
    decreases s.len(),
{
    if s.len() == 0 {
        Some(Seq::empty())
    } else if s[0] == '{' {
        let n = plain_prefix_len(s.skip(1)) as int;
        if n > 0 && n + 1 < s.len() && s[n + 1] == '}' {
            prepend(SegmentView::Placeholder(s.subrange(1, n + 1)), parse_spec(s.skip(n + 2)))
        } else {
            None
        }
    } else if s[0] == '}' {
        None
    } else {
        let n = plain_prefix_len(s) as int;
        proof {
            lemma_plain_prefix(s);
        }
        prepend(SegmentView::Literal(s.take(n)), parse_spec(s.skip(n)))
    }
}

/// Whether `text` is a pattern: the way in which some canonical sequence of
/// segments is written.
pub open spec fn is_pattern(text: Seq<char>) -> bool {
    exists|segments: Seq<SegmentView>| canonical(segments) && #[trigger] render(segments) == text
}

/// The names of the placeholders among `segments`, in order.
pub open spec fn placeholder_names(segments: Seq<SegmentView>) -> Seq<Seq<char>>
    decreases segments.len(),
{
    if segments.len() == 0 {
        Seq::empty()
    } else {
        match segments[0] {
            SegmentView::Literal(_) => placeholder_names(segments.skip(1)),
            SegmentView::Placeholder(name) => seq![name] + placeholder_names(segments.skip(1)),
        }
    }
}

/// The number of characters of `s` before its first `}`, or the length of
/// `s` where it has none.
pub open spec fn close_offset(s: Seq<char>) -> nat
    decreases s.len(),
{
    if s.len() == 0 || s[0] == '}' {
        0
    } else {
        1 + close_offset(s.skip(1))
    }
}

/// The names that stand between braces in `s`, in order. From left to
/// right, each `{` is closed by the first `}` after it, and what stands
/// between the two is a name unless it is empty; the scan goes on behind
/// the `}`. A `{` that no `}` follows, and a `}` that closes nothing, are
/// passed over.
pub open spec fn scan_names(s: Seq<char>) -> Seq<Seq<char>>
    decreases s.len(),
{
    if s.len() == 0 {
        Seq::empty()
    } else if s[0] == '{' {
        let n = close_offset(s.skip(1)) as int;
        if n + 1 < s.len() {
            if n > 0 {
                seq![s.subrange(1, n + 1)] + scan_names(s.skip(n + 2))
            } else {
                scan_names(s.skip(n + 2))
            }
        } else {
            scan_names(s.skip(1))
        }
    } else {
        scan_names(s.skip(1))
    }
}

/// The prefix of `s` before its first brace is no longer than `s`, and a
/// brace follows it unless it is all of `s`.
pub proof fn lemma_plain_prefix(s: Seq<char>)
    ensures
        plain_prefix_len(s) <= s.len(),
        brace_free(s.take(plain_prefix_len(s) as int)),
        plain_prefix_len(s) < s.len() ==> is_brace(s[plain_prefix_len(s) as int]),
    decreases s.len(),
{
    if s.len() == 0 || is_brace(s[0]) {
    } else {
        lemma_plain_prefix(s.skip(1));
        let n = plain_prefix_len(s);
        assert forall|i: int| 0 <= i < n implies !is_brace(#[trigger] s.take(n as int)[i]) by {
            if i > 0 {
                assert(s.take(n as int)[i] == s.skip(1).take(n - 1)[i - 1]);
            }
        }
    }
}

/// A brace-free run that ends at a brace, or at the end of `s`, is the
/// prefix of `s` before its first brace.
pub proof fn lemma_plain_prefix_is(s: Seq<char>, n: int)
    requires
        0 <= n <= s.len(),
        brace_free(s.take(n)),
        n < s.len() ==> is_brace(s[n]),
    ensures
        plain_prefix_len(s) == n,
    decreases n,
{
    if n == 0 {
    } else {
        assert(s.take(n)[0] == s[0]);
        let rest = s.skip(1);
        assert forall|i: int| 0 <= i < n - 1 implies !is_brace(#[trigger] rest.take(n - 1)[i]) by {
            assert(rest.take(n - 1)[i] == s.take(n)[i + 1]);
        }
        lemma_plain_prefix_is(rest, n - 1);
    }
}

/// A pattern that starts with a brace starts with a placeholder.
proof fn lemma_parse_starts_with_placeholder(s: Seq<char>)
    requires
        s.len() > 0,
        is_brace(s[0]),
        parse_spec(s) is Some,
    ensures
        parse_spec(s)->0.len() > 0,
        parse_spec(s)->0[0] is Placeholder,
{
}

/// Reading text as a pattern loses nothing: where `s` is a pattern, its
/// structure is canonical, and written out again it is `s`.
pub proof fn lemma_parse_renders_back(s: Seq<char>)
    requires
        parse_spec(s) is Some,
    ensures
        canonical(parse_spec(s)->0),
        render(parse_spec(s)->0) == s,
    decreases s.len(),
{
    let segments = parse_spec(s)->0;
    if s.len() == 0 {
    } else if s[0] == '{' {
        let n = plain_prefix_len(s.skip(1)) as int;
        let tail = s.skip(n + 2);
        let rest = parse_spec(tail)->0;
        lemma_parse_renders_back(tail);
        lemma_plain_prefix(s.skip(1));
        let name = s.subrange(1, n + 1);
        assert(name == s.skip(1).take(n));
        assert(segments.skip(1) == rest);
        assert(render(segments) == render_segment(segments[0]) + render(rest));
        assert(seq!['{'] + name + seq!['}'] + tail =~= s);
        assert forall|i: int| 0 <= i < segments.len() implies valid_segment(
            #[trigger] segments[i],
        ) by {
            if i > 0 {
                assert(segments[i] == rest[i - 1]);
            }
        }
        assert forall|i: int| 0 <= i < segments.len() - 1 implies !(#[trigger] segments[i]
            is Literal && segments[i + 1] is Literal) by {
            if i > 0 {
                assert(segments[i] == rest[i - 1]);
                assert(segments[i + 1] == rest[i]);
            }
        }
    } else {
        let n = plain_prefix_len(s) as int;
        let tail = s.skip(n);
        let rest = parse_spec(tail)->0;
        lemma_plain_prefix(s);
        lemma_parse_renders_back(tail);
        if tail.len() > 0 {
            lemma_parse_starts_with_placeholder(tail);
        }
        assert(segments.skip(1) == rest);
        assert(render(segments) == render_segment(segments[0]) + render(rest));
        assert(s.take(n) + tail =~= s);
        assert forall|i: int| 0 <= i < segments.len() implies valid_segment(
            #[trigger] segments[i],
        ) by {
            if i > 0 {
                assert(segments[i] == rest[i - 1]);
            }
        }
        assert forall|i: int| 0 <= i < segments.len() - 1 implies !(#[trigger] segments[i]
            is Literal && segments[i + 1] is Literal) by {
            if i > 0 {
                assert(segments[i] == rest[i - 1]);
                assert(segments[i + 1] == rest[i]);
            } else {
                assert(segments[1] == rest[0]);
            }
        }
    }
}

/// Writing a pattern out loses nothing: the text that a canonical sequence
/// of segments is written as is a pattern, and its structure is that
/// sequence.
pub proof fn lemma_render_parses_back(segments: Seq<SegmentView>)
    requires
        canonical(segments),
    ensures
        parse_spec(render(segments)) == Some(segments),
    decreases segments.len(),
{
    if segments.len() == 0 {
        assert(segments =~= Seq::empty());
    } else {
        let s = render(segments);
        let rest = segments.skip(1);
        let tail = render(rest);
        assert(canonical(rest)) by {
            assert forall|i: int| 0 <= i < rest.len() implies valid_segment(#[trigger] rest[i]) by {
                assert(rest[i] == segments[i + 1]);
            }
            assert forall|i: int| 0 <= i < rest.len() - 1 implies !(#[trigger] rest[i] is Literal
                && rest[i + 1] is Literal) by {
                assert(rest[i] == segments[i + 1]);
                assert(rest[i + 1] == segments[i + 2]);
            }
        }
        lemma_render_parses_back(rest);
        assert(valid_segment(segments[0]));
        assert(seq![segments[0]] + rest =~= segments);
        match segments[0] {
            SegmentView::Placeholder(name) => {
                let n = name.len() as int;
                assert(s == seq!['{'] + name + seq!['}'] + tail);
                assert(s[0] == '{');
                assert(s.skip(1).take(n) =~= name);
                assert(s.skip(1)[n] == '}');
                lemma_plain_prefix_is(s.skip(1), n);
                assert(s[n + 1] == '}');
                assert(s.subrange(1, n + 1) =~= name);
                assert(s.skip(n + 2) =~= tail);
            },
            SegmentView::Literal(text) => {
                let n = text.len() as int;
                assert(s == text + tail);
                assert(s[0] == text[0]);
                assert(!is_brace(text[0]));
                assert(s.take(n) =~= text);
                if rest.len() > 0 {
                    assert(rest[0] == segments[1]);
                    assert(rest[0] is Placeholder);
                    assert(tail == render_segment(rest[0]) + render(rest.skip(1)));
                    assert(tail[0] == '{');
                    assert(s[n] == tail[0]);
                } else {
                    assert(tail.len() == 0);
                }
                lemma_plain_prefix_is(s, n);
                assert(s.skip(n) =~= tail);
            },
        }
    }
}

/// Text is a pattern exactly if it can be read as one.
pub proof fn lemma_parse_decides_patterns(text: Seq<char>)
    ensures
        parse_spec(text) is Some <==> is_pattern(text),
{
    if parse_spec(text) is Some {
        lemma_parse_renders_back(text);
    }
    if is_pattern(text) {
        let segments = choose|segments: Seq<SegmentView>|
            canonical(segments) && #[trigger] render(segments) == text;
        lemma_render_parses_back(segments);
    }
}

/// A pattern has one structure: canonical sequences of segments that are
/// written alike are the same.
pub proof fn lemma_structure_is_unique(first: Seq<SegmentView>, second: Seq<SegmentView>)
    requires
        canonical(first),
        canonical(second),
        render(first) == render(second),
    ensures
        first == second,
{
    lemma_render_parses_back(first);
    lemma_render_parses_back(second);
}

/// Skipping a brace-free prefix loses no name.
proof fn lemma_scan_skips_plain_prefix(s: Seq<char>)
    ensures
        scan_names(s) == scan_names(s.skip(plain_prefix_len(s) as int)),
    decreases s.len(),
{
    if s.len() == 0 || is_brace(s[0]) {
        assert(s.skip(0) == s);
    } else {
        lemma_scan_skips_plain_prefix(s.skip(1));
        lemma_plain_prefix(s.skip(1));
        assert(s.skip(1).skip(plain_prefix_len(s.skip(1)) as int) == s.skip(
            plain_prefix_len(s) as int,
        ));
    }
}

/// A run without `}` that ends at a `}`, or at the end of `s`, is what
/// stands in `s` before its first `}`.
proof fn lemma_close_offset_is(s: Seq<char>, n: int)
    requires
        0 <= n <= s.len(),
        forall|i: int| 0 <= i < n ==> #[trigger] s[i] != '}',
        n < s.len() ==> s[n] == '}',
    ensures
        close_offset(s) == n,
    decreases n,
{
    if n > 0 {
        let rest = s.skip(1);
        assert forall|i: int| 0 <= i < n - 1 implies #[trigger] rest[i] != '}' by {
            assert(rest[i] == s[i + 1]);
        }
        lemma_close_offset_is(rest, n - 1);
    }
}

/// Text without `}` holds no name.
proof fn lemma_no_close_no_names(s: Seq<char>)
    requires
        close_offset(s) == s.len(),
    ensures
        scan_names(s) == Seq::<Seq<char>>::empty(),
    decreases s.len(),
{
    if s.len() > 0 {
        lemma_no_close_no_names(s.skip(1));
    }
}

/// On a pattern, the scan for names finds the names of its placeholders.
pub proof fn lemma_scan_finds_placeholders(s: Seq<char>)
    requires
        parse_spec(s) is Some,
    ensures
        scan_names(s) == placeholder_names(parse_spec(s)->0),
    decreases s.len(),
{
    let segments = parse_spec(s)->0;
    if s.len() == 0 {
    } else if s[0] == '{' {
        let rest = s.skip(1);
        let n = plain_prefix_len(rest) as int;
        lemma_plain_prefix(rest);
        assert forall|i: int| 0 <= i < n implies #[trigger] rest[i] != '}' by {
            assert(rest[i] == rest.take(n)[i]);
        }
        lemma_close_offset_is(rest, n);
        lemma_scan_finds_placeholders(s.skip(n + 2));
        assert(segments.skip(1) == parse_spec(s.skip(n + 2))->0);
    } else {
        let n = plain_prefix_len(s) as int;
        lemma_plain_prefix(s);
        lemma_scan_finds_placeholders(s.skip(n));
        lemma_scan_skips_plain_prefix(s);
        assert(segments.skip(1) == parse_spec(s.skip(n))->0);
    }
}

/// The end of the brace-free run of `chars` that starts at `from`.
fn plain_run(chars: &Vec<char>, from: usize) -> (end: usize)
    requires
        from <= chars.len(),
    ensures
        from <= end <= chars.len(),
        end - from == plain_prefix_len(chars@.skip(from as int)),
{
    let mut end = from;
    while end < chars.len() && chars[end] != '{' && chars[end] != '}'
        invariant
            from <= end <= chars.len(),
            forall|i: int| from <= i < end ==> !is_brace(#[trigger] chars@[i]),
        decreases chars.len() - end,
    {
        end = end + 1;
    }
    proof {
        let s = chars@.skip(from as int);
        assert forall|i: int| 0 <= i < end - from implies !is_brace(
            #[trigger] s.take(end - from)[i],
        ) by {
            assert(s.take(end - from)[i] == chars@[from + i]);
        }
        lemma_plain_prefix_is(s, end - from);
    }
    end
}

/// A pattern: its segments, in the order in which they are written.
#[derive(Clone, Debug, PartialEq, Eq)]
pub struct Pattern {
    pub segments: Vec<Segment>,
}

impl View for Pattern {
    type V = Seq<SegmentView>;

    open spec fn view(&self) -> Seq<SegmentView> {
        segment_views(self.segments@)
    }
}

impl Pattern {
    /// Reads `text` as a pattern.
    ///
    /// Fails with `MalformedPattern` where `text` is not a pattern: where a
    /// brace is not closed or not opened, or a placeholder has no name.
    pub fn parse(text: &str) -> (parsed: Result<Pattern, ErrorKind>)
        ensures
            parsed is Ok <==> is_pattern(text@),
            match parsed {
                Ok(pattern) => {
                    &&& canonical(pattern@)
                    &&& render(pattern@) == text@
                    &&& parse_spec(text@) == Some(pattern@)
                },
                Err(reason) => reason == ErrorKind::MalformedPattern && parse_spec(text@) is None,
            },
    {
        let chars = chars_of(text);
        let n = chars.len();
        let mut segments: Vec<Segment> = Vec::new();
        let mut i: usize = 0;
        proof {
            lemma_parse_decides_patterns(text@);
            assert(text@.skip(0) == text@);
            assert forall|rest: Seq<SegmentView>|
                #[trigger] (segment_views(segments@) + rest) == rest by {
                assert(segment_views(segments@) + rest =~= rest);
            }
        }
        while i < n
            invariant
                chars@ == text@,
                n == chars.len(),
                i <= n,
                parse_spec(text@) is Some <==> is_pattern(text@),
                parse_spec(text@) == match parse_spec(text@.skip(i as int)) {
                    Some(rest) => Some(segment_views(segments@) + rest),
                    None => None,
                },
            decreases n - i,
        {
            let ghost s = text@.skip(i as int);
            let ghost done = segment_views(segments@);
            let c = chars[i];
            assert(s[0] == c);
            if c == '}' {
                return Err(ErrorKind::MalformedPattern);
            } else if c == '{' {
                let close = plain_run(&chars, i + 1);
                assert(s.skip(1) == text@.skip(i + 1));
                if close > i + 1 && close < n && chars[close] == '}' {
                    let name = text.substring_char(i + 1, close).to_owned();
                    assert(s[close - i] == chars@[close as int]);
                    assert(name@ == s.subrange(1, close - i));
                    assert(s.skip(close - i + 1) == text@.skip(close + 1));
                    segments.push(Segment::Placeholder(name));
                    proof {
                        let first = SegmentView::Placeholder(name@);
                        assert(segment_views(segments@) == done.push(first));
                        assert forall|rest: Seq<SegmentView>|
                            done + (seq![first] + rest) == #[trigger] (done.push(first) + rest) by {
                            assert(done + (seq![first] + rest) =~= done.push(first) + rest);
                        }
                    }
                    i = close + 1;
                } else {
                    assert(close < n ==> s[close - i] == chars@[close as int]);
                    return Err(ErrorKind::MalformedPattern);
                }
            } else {
                let end = plain_run(&chars, i);
                let literal = text.substring_char(i, end).to_owned();
                assert(literal@ == s.take(end - i));
                assert(s.skip(end - i) == text@.skip(end as int));
                segments.push(Segment::Literal(literal));
                proof {
                    let first = SegmentView::Literal(literal@);
                    assert(segment_views(segments@) == done.push(first));
                    assert forall|rest: Seq<SegmentView>|
                        done + (seq![first] + rest) == #[trigger] (done.push(first) + rest) by {
                        assert(done + (seq![first] + rest) =~= done.push(first) + rest);
                    }
                }
                i = end;
            }
        }
        proof {
            assert(text@.skip(i as int).len() == 0);
            assert(segment_views(segments@) + Seq::<SegmentView>::empty() == segment_views(
                segments@,
            ));
            lemma_parse_renders_back(text@);
        }
        Ok(Pattern { segments })
    }

    /// The names of the placeholders, in the order in which they are
    /// written, a name as often as it is written.
    pub fn placeholder_names(&self) -> (names: Vec<String>)
        ensures
            string_views(names@) == placeholder_names(self@),
    {
        let mut names: Vec<String> = Vec::new();
        let mut i: usize = 0;
        proof {
            assert(self@.skip(0) == self@);
            assert(string_views(names@) + placeholder_names(self@) =~= placeholder_names(self@));
        }
        while i < self.segments.len()
            invariant
                i <= self.segments.len(),
                placeholder_names(self@) == string_views(names@) + placeholder_names(
                    self@.skip(i as int),
                ),
            decreases self.segments.len() - i,
        {
            let ghost done = string_views(names@);
            let ghost rest = placeholder_names(self@.skip(i + 1));
            assert(self@.skip(i as int)[0] == self.segments@[i as int]@);
            assert(self@.skip(i as int).skip(1) == self@.skip(i + 1));
            match &self.segments[i] {
                Segment::Literal(_) => {},
                Segment::Placeholder(name) => {
                    names.push(name.clone());
                    proof {
                        assert(string_views(names@) == done.push(name@));
                        assert(done + (seq![name@] + rest) =~= done.push(name@) + rest);
                    }
                },
            }
            i = i + 1;
        }
        proof {
            assert(self@.skip(i as int).len() == 0);
            assert(string_views(names@) + Seq::<Seq<char>>::empty() =~= string_views(names@));
        }
        names
    }

    /// The text that the pattern is written as.
    pub fn render(&self) -> (text: String)
        ensures
            text@ == render(self@),
    {
        let mut text = String::new();
        let mut i: usize = 0;
        proof {
            assert(self@.skip(0) == self@);
            assert(text@ + render(self@) =~= render(self@));
        }
        while i < self.segments.len()
            invariant
                i <= self.segments.len(),
                render(self@) == text@ + render(self@.skip(i as int)),
            decreases self.segments.len() - i,
        {
            let ghost done = text@;
            let ghost rest = render(self@.skip(i + 1));
            assert(self@.skip(i as int)[0] == self.segments@[i as int]@);
            assert(self@.skip(i as int).skip(1) == self@.skip(i + 1));
            match &self.segments[i] {
                Segment::Literal(literal) => {
                    text.append(literal.as_str());
                    assert(done + (literal@ + rest) =~= (done + literal@) + rest);
                },
                Segment::Placeholder(name) => {
                    proof {
                        reveal_strlit("{");
                        reveal_strlit("}");
                    }
                    text.append("{");
                    text.append(name.as_str());
                    text.append("}");
                    assert(done + ((seq!['{'] + name@ + seq!['}']) + rest) =~= ((done + "{"@)
                        + name@ + "}"@) + rest);
                },
            }
            i = i + 1;
        }
        proof {
            assert(self@.skip(i as int).len() == 0);
            assert(text@ + Seq::<char>::empty() =~= text@);
        }
        text
    }
}

/// The end of the run of `chars` that starts at `from` and holds no `}`.
fn run_to_close(chars: &Vec<char>, from: usize) -> (end: usize)
    requires
        from <= chars.len(),
    ensures
        from <= end <= chars.len(),
        end - from == close_offset(chars@.skip(from as int)),
{
    let mut end = from;
    while end < chars.len() && chars[end] != '}'
        invariant
            from <= end <= chars.len(),
            forall|i: int| from <= i < end ==> #[trigger] chars@[i] != '}',
        decreases chars.len() - end,
    {
        end = end + 1;
    }
    proof {
        let s = chars@.skip(from as int);
        assert forall|i: int| 0 <= i < end - from implies #[trigger] s[i] != '}' by {
            assert(s[i] == chars@[from + i]);
        }
        lemma_close_offset_is(s, end - from);
    }
    end
}

/// The names that stand between braces in `pattern`, in the order in which
/// they are written, a name as often as it is written.
///
/// The scan does not judge the pattern. From left to right, each `{` is
/// closed by the first `}` after it, and what stands between the two is a
/// name unless it is empty. A `{` that no `}` follows, and a `}` that
/// closes nothing, are passed over, so that text which is not a pattern
/// gives the names that can still be told, if any.
pub fn extract_placeholder_names(pattern: &str) -> (names: Vec<String>)
    ensures
        string_views(names@) == scan_names(pattern@),
{
    let chars = chars_of(pattern);
    let n = chars.len();
    let mut names: Vec<String> = Vec::new();
    let mut i: usize = 0;
    proof {
        assert(pattern@.skip(0) == pattern@);
        assert(string_views(names@) + scan_names(pattern@) =~= scan_names(pattern@));
    }
    while i < n
        invariant
            chars@ == pattern@,
            n == chars.len(),
            i <= n,
            scan_names(pattern@) == string_views(names@) + scan_names(pattern@.skip(i as int)),
        decreases n - i,
    {
        let ghost s = pattern@.skip(i as int);
        let ghost done = string_views(names@);
        assert(s[0] == chars@[i as int]);
        assert(s.skip(1) == pattern@.skip(i + 1));
        if chars[i] == '{' {
            let close = run_to_close(&chars, i + 1);
            if close < n {
                assert(s.skip(close - i + 1) == pattern@.skip(close + 1));
                if close > i + 1 {
                    let name = pattern.substring_char(i + 1, close).to_owned();
                    assert(name@ == s.subrange(1, close - i));
                    names.push(name);
                    proof {
                        assert(string_views(names@) == done.push(name@));
                        let rest = scan_names(pattern@.skip(close + 1));
                        assert(done + (seq![name@] + rest) =~= done.push(name@) + rest);
                    }
                }
                i = close + 1;
            } else {
                proof {
                    lemma_no_close_no_names(s.skip(1));
                    assert(pattern@.skip(n as int).len() == 0);
                }
                i = n;
            }
        } else {
            i = i + 1;
        }
    }
    proof {
        assert(pattern@.skip(i as int).len() == 0);
        assert(string_views(names@) + Seq::<Seq<char>>::empty() =~= string_views(names@));
    }
    names
}

} // verus!
