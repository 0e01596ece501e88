//! The pattern compiler: from a pattern to a matcher that takes file names
//! apart.
//!
//! A pattern is lowered to an expression for the matching engine: literal
//! text is escaped, each placeholder becomes a group that captures one or
//! more characters of any kind, a line feed too, and the whole is anchored
//! at both ends, so that it matches a file name only as a whole. The engine
//! does the search; what it reports is then checked against the pattern,
//! and only groups that put the file name together again count as a match.
//!
//! Where a file name can be taken apart in more than one way, the engine
//! decides: it gives an earlier placeholder as much of the name as the rest
//! of the pattern allows. Two placeholders with no literal text between
//! them are such a case: the first takes all but one character. This is a
//! limit of the format.

use vstd::prelude::*;
use vstd::string::StringExecFns;
use regex::Regex;
use crate::engine::{
    captures_view,
    escaped,
    group_views,
    regex_accepts,
    regex_captures,
    regex_escape,
    regex_find,
    regex_is_plain,
    regex_new,
    regex_pattern,
    regex_text,
};
use crate::error::ErrorKind;
use crate::extraction::{binding_views, bindings, paired, BindingView, Extraction};
use crate::pattern::{
    canonical,
    is_pattern,
    parse_spec,
    placeholder_names,
    render,
    Pattern,
    Segment,
    SegmentView,
};
use crate::text::string_views;

verus! {

/// What one segment is lowered to: literal text escaped, a placeholder as a
/// group that captures one or more characters, where `(?s:.)` stands for
/// any one character, a line feed too.
pub open spec fn lowered_segment(segment: SegmentView) -> Seq<char> {
    match segment {
        SegmentView::Literal(text) => escaped(text),
        SegmentView::Placeholder(_) => "((?s:.)+)"@,
    }
}

/// What a sequence of segments is lowered to, one after the other.
pub open spec fn lowered_body(segments: Seq<SegmentView>) -> Seq<char>
    decreases segments.len(),
{
    if segments.len() == 0 {
        Seq::empty()
    } else {
        lowered_segment(segments[0]) + lowered_body(segments.skip(1))
    }
}

/// The expression that a pattern is lowered to: its segments, anchored at
/// the start and at the end.
pub open spec fn anchored_expression(segments: Seq<SegmentView>) -> Seq<char> {
    "^"@ + lowered_body(segments) + "$"@
}

/// The text that `segments` give when each placeholder, in order, is
/// replaced by the next of `values`.
pub open spec fn fill(segments: Seq<SegmentView>, values: Seq<Seq<char>>) -> Seq<char>
    decreases segments.len(),
{
    if segments.len() == 0 {
        Seq::empty()
    } else {
        match segments[0] {
            SegmentView::Literal(text) => text + fill(segments.skip(1), values),
            SegmentView::Placeholder(_) => if values.len() > 0 {
                values[0] + fill(segments.skip(1), values.skip(1))
            } else {
                fill(segments.skip(1), values)
            },
        }
    }
}

/// Whether `values` take `filename` apart along `segments`: there is one
/// value for each placeholder, none of them empty, and with them in the
/// placeholders' places the segments give `filename`.
pub open spec fn is_decomposition(
    segments: Seq<SegmentView>,
    values: Seq<Seq<char>>,
    filename: Seq<char>,
) -> bool {
    &&& values.len() == placeholder_names(segments).len()
    &&& forall|k: int| 0 <= k < values.len() ==> (#[trigger] values[k]).len() > 0
    &&& fill(segments, values) == filename
}

/// The texts of the groups after the first, where each of them took part in
/// the match.
pub open spec fn captured_values(groups: Seq<Option<Seq<char>>>) -> Option<Seq<Seq<char>>> {
    if groups.len() >= 1 && forall|i: int|
        1 <= i < groups.len() ==> (#[trigger] groups[i]) is Some {
        Some(Seq::new((groups.len() - 1) as nat, |k: int| groups[k + 1]->0))
    } else {
        None
    }
}

/// The values that count as captured from `filename`, given what the engine
/// found: the texts of its groups, where they take `filename` apart along
/// `segments`.
pub open spec fn accepted_values(
    segments: Seq<SegmentView>,
    filename: Seq<char>,
    captures: Option<Seq<Option<Seq<char>>>>,
) -> Option<Seq<Seq<char>>> {
    match captures {
        Some(groups) => match captured_values(groups) {
            Some(values) => if is_decomposition(segments, values, filename) {
                Some(values)
            } else {
                None
            },
            None => None,
        },
        None => None,
    }
}

/// The bindings that are extracted from `filename`, given what the engine
/// found: the name of each placeholder with the value accepted for it, in
/// the order of the placeholders, or `None` where no values are accepted.
pub open spec fn extracted_pairs(
    segments: Seq<SegmentView>,
    filename: Seq<char>,
    captures: Option<Seq<Option<Seq<char>>>>,
) -> Option<Seq<BindingView>> {
    match accepted_values(segments, filename, captures) {
        Some(values) => Some(paired(placeholder_names(segments), values)),
        None => None,
    }
}

/// What is extracted from `filename`, given what the engine found: the
/// accepted values under the names of the placeholders, or `None` where
/// there are none.
pub open spec fn interpret_spec(
    segments: Seq<SegmentView>,
    filename: Seq<char>,
    captures: Option<Seq<Option<Seq<char>>>>,
) -> Option<Map<Seq<char>, Seq<char>>> {
    match extracted_pairs(segments, filename, captures) {
        Some(pairs) => Some(bindings(pairs)),
        None => None,
    }
}

/// The bindings that matching `filename` against the pattern with these
/// segments extracts, in the order of the placeholders, or `None` where it
/// does not match.
pub open spec fn match_pairs(segments: Seq<SegmentView>, filename: Seq<char>) -> Option<
    Seq<BindingView>,
> {
    extracted_pairs(segments, filename, regex_captures(anchored_expression(segments), filename))
}

/// What matching `filename` against the pattern with these segments
/// extracts, or `None` where it does not match.
pub open spec fn match_spec(segments: Seq<SegmentView>, filename: Seq<char>) -> Option<
    Map<Seq<char>, Seq<char>>,
> {
    interpret_spec(segments, filename, regex_captures(anchored_expression(segments), filename))
}

/// The expression for the matching engine that `pattern` is lowered to.
pub fn lower(pattern: &Pattern) -> (expression: String)
    ensures
        expression@ == anchored_expression(pattern@),
{
    let mut expression = "^".to_owned();
    let mut i: usize = 0;
    proof {
        assert(pattern@.skip(0) == pattern@);
    }
    while i < pattern.segments.len()
        invariant
            i <= pattern.segments.len(),
            "^"@ + lowered_body(pattern@) == expression@ + lowered_body(
                pattern@.skip(i as int),
            ),
        decreases pattern.segments.len() - i,
    {
        let ghost done = expression@;
        let ghost rest = lowered_body(pattern@.skip(i + 1));
        assert(pattern@.skip(i as int)[0] == pattern.segments@[i as int]@);
        assert(pattern@.skip(i as int).skip(1) == pattern@.skip(i + 1));
        match &pattern.segments[i] {
            Segment::Literal(text) => {
                let quoted = regex_escape(text.as_str());
                expression.append(quoted.as_str());
                assert(done + (escaped(text@) + rest) =~= (done + escaped(text@)) + rest);
            },
            Segment::Placeholder(_) => {
                expression.append("((?s:.)+)");
                assert(done + ("((?s:.)+)"@ + rest) =~= (done + "((?s:.)+)"@) + rest);
            },
        }
        i = i + 1;
    }
    proof {
        assert(pattern@.skip(i as int).len() == 0);
        assert(expression@ + Seq::<char>::empty() =~= expression@);
    }
    expression.append("$");
    expression
}

/// Whether `values` take `filename` apart along `pattern`.
pub fn decomposes(pattern: &Pattern, values: &Vec<String>, filename: &str) -> (holds: bool)
    ensures
        holds == is_decomposition(pattern@, string_views(values@), filename@),
{
    let ghost views = string_views(values@);
    let mut k: usize = 0;
    while k < values.len()
        invariant
            k <= values.len(),
            views == string_views(values@),
            forall|j: int| 0 <= j < k ==> (#[trigger] views[j]).len() > 0,
        decreases values.len() - k,
    {
        if values[k].as_str().is_empty() {
            assert(views[k as int].len() == 0);
            return false;
        }
        assert(views[k as int].len() > 0);
        k = k + 1;
    }
    let mut filled = String::new();
    let mut used: usize = 0;
    let mut i: usize = 0;
    proof {
        assert(pattern@.skip(0) == pattern@);
        assert(views.skip(0) == views);
        assert(filled@ + fill(pattern@, views) =~= fill(pattern@, views));
    }
    while i < pattern.segments.len()
        invariant
            i <= pattern.segments.len(),
            used <= values.len(),
            views == string_views(values@),
            placeholder_names(pattern@).len() == used + placeholder_names(
                pattern@.skip(i as int),
            ).len(),
            fill(pattern@, views) == filled@ + fill(
                pattern@.skip(i as int),
                views.skip(used as int),
            ),
        decreases pattern.segments.len() - i,
    {
        let ghost done = filled@;
        let ghost tail = pattern@.skip(i + 1);
        assert(pattern@.skip(i as int)[0] == pattern.segments@[i as int]@);
        assert(pattern@.skip(i as int).skip(1) == tail);
        match &pattern.segments[i] {
            Segment::Literal(text) => {
                filled.append(text.as_str());
                assert(done + (text@ + fill(tail, views.skip(used as int))) =~= (done + text@)
                    + fill(tail, views.skip(used as int)));
            },
            Segment::Placeholder(_) => {
                if used >= values.len() {
                    return false;
                }
                filled.append(values[used].as_str());
                proof {
                    let left = views.skip(used as int);
                    assert(left[0] == values@[used as int]@);
                    assert(left.skip(1) == views.skip(used + 1));
                    assert(done + (left[0] + fill(tail, left.skip(1))) =~= (done + left[0]) + fill(
                        tail,
                        left.skip(1),
                    ));
                }
                used = used + 1;
            },
        }
        i = i + 1;
    }
    proof {
        assert(pattern@.skip(i as int).len() == 0);
        assert(filled@ + Seq::<char>::empty() =~= filled@);
    }
    let whole = filename.to_owned();
    used == values.len() && filled == whole
}

/// What is extracted from `filename`, given what the engine's search found
/// in it for the expression of `pattern`.
///
/// `found` is `None` where the search found no match, and else the groups
/// of the match, the whole match first. The groups after the first count as
/// the values of the placeholders, in order, where each took part in the
/// match and together they take `filename` apart along `pattern`. Anything
/// else is no match.
pub fn interpret(
    pattern: &Pattern,
    filename: &str,
    found: Option<Vec<Option<String>>>,
) -> (extracted: Option<Extraction>)
    ensures
        match extracted {
            Some(extraction) => {
                &&& extracted_pairs(pattern@, filename@, captures_view(found)) == Some(
                    binding_views(extraction.pairs@),
                )
                &&& interpret_spec(pattern@, filename@, captures_view(found)) == Some(
                    extraction@,
                )
            },
            None => interpret_spec(pattern@, filename@, captures_view(found)) is None,
        },
{
    let groups = match found {
        Some(groups) => groups,
        None => { return None; },
    };
    let ghost shown = group_views(groups@);
    if groups.len() == 0 {
        return None;
    }
    let mut values: Vec<String> = Vec::new();
    let mut k: usize = 1;
    while k < groups.len()
        invariant
            1 <= k <= groups.len(),
            found == Some(groups),
            shown == group_views(groups@),
            values.len() == k - 1,
            forall|i: int| 1 <= i < k ==> (#[trigger] shown[i]) is Some,
            forall|j: int| 0 <= j < k - 1 ==> (#[trigger] values@[j])@ == shown[j + 1]->0,
        decreases groups.len() - k,
    {
        match &groups[k] {
            Some(text) => {
                assert(shown[k as int] == Some(text@));
                values.push(text.clone());
            },
            None => {
                assert(shown[k as int] is None);
                assert(captured_values(shown) is None);
                return None;
            },
        }
        k = k + 1;
    }
    assert(captured_values(shown) == Some(string_views(values@))) by {
        assert(captured_values(shown)->0 =~= string_views(values@));
    }
    if !decomposes(pattern, &values, filename) {
        return None;
    }
    let names = pattern.placeholder_names();
    let mut pairs: Vec<(String, String)> = Vec::new();
    let mut i: usize = 0;
    while i < names.len()
        invariant
            i <= names.len(),
            names.len() == values.len(),
            pairs.len() == i,
            forall|j: int|
                0 <= j < i ==> (#[trigger] pairs@[j]).0@ == names@[j]@ && pairs@[j].1@
                    == values@[j]@,
        decreases names.len() - i,
    {
        pairs.push((names[i].clone(), values[i].clone()));
        i = i + 1;
    }
    assert(binding_views(pairs@) =~= paired(string_views(names@), string_views(values@)));
    Some(Extraction::from_pairs(pairs))
}

/// A pattern made ready to match file names: the pattern, and the engine's
/// compiled form of the expression that it is lowered to.
#[derive(Debug)]
pub struct CompiledMatcher {
    pattern: Pattern,
    regex: Regex,
}

impl View for CompiledMatcher {
    type V = Seq<SegmentView>;

    closed spec fn view(&self) -> Seq<SegmentView> {
        self.pattern@
    }
}

impl CompiledMatcher {
    /// The compiled expression is the one that the pattern is lowered to.
    #[verifier::type_invariant]
    spec fn engine_fits_pattern(&self) -> bool {
        regex_is_plain(self.regex) && regex_pattern(self.regex) == anchored_expression(
            self.pattern@,
        )
    }

    /// The pattern that the matcher was compiled from.
    pub fn pattern(&self) -> (pattern: &Pattern)
        ensures
            pattern@ == self@,
    {
        &self.pattern
    }

    /// The names of the placeholders, in the order in which the pattern
    /// holds them, a name as often as it is written.
    pub fn placeholder_names(&self) -> (names: Vec<String>)
        ensures
            string_views(names@) == placeholder_names(self@),
    {
        self.pattern.placeholder_names()
    }

    /// The expression that the engine compiled for the pattern.
    pub fn expression(&self) -> (expression: String)
        ensures
            expression@ == anchored_expression(self@),
    {
        proof {
            use_type_invariant(self);
        }
        regex_text(&self.regex)
    }

    /// Matches `filename` as a whole against the pattern. On a match, the
    /// result holds the name of each placeholder with its value, in the
    /// order of the placeholders.
    pub fn match_filename(&self, filename: &str) -> (extracted: Option<Extraction>)
        ensures
            match extracted {
                Some(extraction) => {
                    &&& match_pairs(self@, filename@) == Some(binding_views(extraction.pairs@))
                    &&& match_spec(self@, filename@) == Some(extraction@)
                },
                None => match_spec(self@, filename@) is None,
            },
    {
        proof {
            use_type_invariant(self);
        }
        let found = regex_find(&self.regex, filename);
        interpret(&self.pattern, filename, found)
    }
}

/// The check of what the engine found loses no match: where the groups
/// after the first are values that take the file name apart along the
/// pattern, they are accepted as they are, whatever the first group holds.
pub proof fn lemma_interpret_accepts_what_fits(
    segments: Seq<SegmentView>,
    values: Seq<Seq<char>>,
    filename: Seq<char>,
    whole: Option<Seq<char>>,
)
    requires
        is_decomposition(segments, values, filename),
    ensures
        interpret_spec(
            segments,
            filename,
            Some(seq![whole] + values.map_values(|value: Seq<char>| Some(value))),
        ) == Some(bindings(paired(placeholder_names(segments), values))),
{
    let groups = seq![whole] + values.map_values(|value: Seq<char>| Some(value));
    assert forall|i: int| 1 <= i < groups.len() implies (#[trigger] groups[i]) is Some by {
        assert(groups[i] == Some(values[i - 1]));
    }
    assert(captured_values(groups)->0 =~= values) by {
        assert forall|k: int| 0 <= k < values.len() implies captured_values(groups)->0[k]
            == values[k] by {
            assert(groups[k + 1] == Some(values[k]));
        }
    }
}

/// A match takes the file name apart: whatever the engine found, what is
/// extracted are values, one for each placeholder and none of them empty,
/// that give the file name when they are put in the placeholders' places.
pub proof fn lemma_match_takes_filename_apart(segments: Seq<SegmentView>, filename: Seq<char>)
    requires
        match_spec(segments, filename) is Some,
    ensures
        exists|values: Seq<Seq<char>>|
            #![trigger is_decomposition(segments, values, filename)]
            is_decomposition(segments, values, filename) && match_spec(segments, filename) == Some(
                bindings(paired(placeholder_names(segments), values)),
            ),
{
    let captures = regex_captures(anchored_expression(segments), filename);
    let values = accepted_values(segments, filename, captures)->0;
    assert(is_decomposition(segments, values, filename));
}

/// Where a file name can be taken apart along the pattern in one way only,
/// a match extracts exactly those values.
pub proof fn lemma_match_of_unambiguous_name_is_exact(
    segments: Seq<SegmentView>,
    values: Seq<Seq<char>>,
    filename: Seq<char>,
)
    requires
        is_decomposition(segments, values, filename),
        forall|other: Seq<Seq<char>>| #[trigger]
            is_decomposition(segments, other, filename) ==> other == values,
        match_spec(segments, filename) is Some,
    ensures
        match_spec(segments, filename) == Some(
            bindings(paired(placeholder_names(segments), values)),
        ),
{
    lemma_match_takes_filename_apart(segments, filename);
}

/// Without values to put in, segments without placeholders give the text
/// that they are written as.
proof fn lemma_fill_of_literals(segments: Seq<SegmentView>)
    requires
        placeholder_names(segments).len() == 0,
    ensures
        fill(segments, Seq::empty()) == render(segments),
    decreases segments.len(),
{
    if segments.len() > 0 {
        lemma_fill_of_literals(segments.skip(1));
    }
}

/// A pattern without placeholders matches no file name but the one that is
/// written like the pattern itself, and extracts nothing from it. So the
/// empty pattern matches no file name but the empty one.
pub proof fn lemma_literal_pattern_matches_itself_only(
    segments: Seq<SegmentView>,
    filename: Seq<char>,
)
    requires
        placeholder_names(segments).len() == 0,
        match_spec(segments, filename) is Some,
    ensures
        filename == render(segments),
        match_spec(segments, filename) == Some(Map::<Seq<char>, Seq<char>>::empty()),
{
    lemma_match_takes_filename_apart(segments, filename);
    let values = choose|values: Seq<Seq<char>>|
        #![trigger is_decomposition(segments, values, filename)]
        is_decomposition(segments, values, filename) && match_spec(segments, filename) == Some(
            bindings(paired(placeholder_names(segments), values)),
        );
    assert(values =~= Seq::empty());
    lemma_fill_of_literals(segments);
    assert(paired(placeholder_names(segments), values) =~= Seq::empty());
}

/// Along a pattern with one placeholder, a file name can be taken apart in
/// one way at most.
pub proof fn lemma_one_placeholder_is_unambiguous(
    segments: Seq<SegmentView>,
    first: Seq<char>,
    second: Seq<char>,
)
    requires
        placeholder_names(segments).len() == 1,
        fill(segments, seq![first]) == fill(segments, seq![second]),
    ensures
        first == second,
    decreases segments.len(),
{
    let rest = segments.skip(1);
    match segments[0] {
        SegmentView::Literal(text) => {
            let a = fill(rest, seq![first]);
            let b = fill(rest, seq![second]);
            assert(a =~= (text + a).skip(text.len() as int));
            assert(b =~= (text + b).skip(text.len() as int));
            lemma_one_placeholder_is_unambiguous(rest, first, second);
        },
        SegmentView::Placeholder(_) => {
            assert(placeholder_names(rest).len() == 0);
            assert(seq![first].skip(1) =~= Seq::empty());
            assert(seq![second].skip(1) =~= Seq::empty());
            lemma_fill_of_literals(rest);
            let tail = render(rest);
            assert((first + tail).len() == (second + tail).len());
            assert(first =~= (first + tail).take(first.len() as int));
            assert(second =~= (second + tail).take(second.len() as int));
        },
    }
}

/// For a pattern with one placeholder, what a match extracts is the value
/// that the file name was made with: where `filename` is the pattern with
/// `value` in the place of its placeholder, a match binds the placeholder's
/// name to `value`.
pub proof fn lemma_one_placeholder_match_is_exact(
    segments: Seq<SegmentView>,
    value: Seq<char>,
    filename: Seq<char>,
)
    requires
        placeholder_names(segments).len() == 1,
        fill(segments, seq![value]) == filename,
        match_spec(segments, filename) is Some,
    ensures
        match_spec(segments, filename) == Some(
            Map::<Seq<char>, Seq<char>>::empty().insert(placeholder_names(segments)[0], value),
        ),
{
    lemma_match_takes_filename_apart(segments, filename);
    let found = choose|values: Seq<Seq<char>>|
        #![trigger is_decomposition(segments, values, filename)]
        is_decomposition(segments, values, filename) && match_spec(segments, filename) == Some(
            bindings(paired(placeholder_names(segments), values)),
        );
    assert(found =~= seq![found[0]]);
    lemma_one_placeholder_is_unambiguous(segments, found[0], value);
    let pairs = paired(placeholder_names(segments), found);
    assert(pairs.drop_last() =~= Seq::empty());
    assert(bindings(pairs.drop_last()) == Map::<Seq<char>, Seq<char>>::empty());
}

/// Compiling is repeatable: two matchers compiled from the same pattern
/// extract the same from every file name.
pub proof fn lemma_compile_is_repeatable(
    pattern: Seq<char>,
    first: CompiledMatcher,
    second: CompiledMatcher,
)
    requires
        parse_spec(pattern) == Some(first@),
        parse_spec(pattern) == Some(second@),
    ensures
        forall|filename: Seq<char>| #[trigger]
            match_spec(first@, filename) == match_spec(second@, filename),
{
}

/// Makes the matcher of `pattern` from what the engine made of the
/// expression that `pattern` is lowered to: the matcher where the engine
/// compiled the expression, and `MalformedPattern` where it refused it.
///
/// `built` must be what `Regex::new` returned for `lower(&pattern)`.
pub fn finish(pattern: Pattern, built: Result<Regex, regex::Error>) -> (compiled: Result<
    CompiledMatcher,
    ErrorKind,
>)
    requires
        built matches Ok(re) ==> regex_is_plain(re) && regex_pattern(re) == anchored_expression(
            pattern@,
        ),
    ensures
        compiled is Ok <==> built is Ok,
        compiled matches Ok(matcher) ==> matcher@ == pattern@,
        compiled matches Err(reason) ==> reason == ErrorKind::MalformedPattern,
{
    match built {
        Ok(regex) => Ok(CompiledMatcher { pattern, regex }),
        Err(_) => Err(ErrorKind::MalformedPattern),
    }
}

/// Compiles `pattern` into a matcher.
///
/// Succeeds exactly where `pattern` is a pattern and the engine accepts the
/// expression that it is lowered to. Fails with `MalformedPattern`
/// otherwise.
pub fn compile(pattern: &str) -> (compiled: Result<CompiledMatcher, ErrorKind>)
    ensures
        compiled is Ok <==> is_pattern(pattern@) && regex_accepts(
            anchored_expression(parse_spec(pattern@)->0),
        ),
        compiled matches Ok(matcher) ==> {
            &&& canonical(matcher@)
            &&& render(matcher@) == pattern@
            &&& parse_spec(pattern@) == Some(matcher@)
        },
        compiled matches Err(reason) ==> reason == ErrorKind::MalformedPattern,
{
    let parsed = match Pattern::parse(pattern) {
        Ok(parsed) => parsed,
        Err(reason) => { return Err(reason); },
    };
    let expression = lower(&parsed);
    let built = regex_new(expression.as_str());
    finish(parsed, built)
}

} // verus!
