//! The rename planner: for each file name, the new name that the patterns
//! give it, or the reason why there is none.
//!
//! Planning touches no file. The source pattern is compiled once and used
//! for every file name; a file name that cannot be renamed is recorded with
//! its reason and the batch goes on.

use vstd::prelude::*;
use vstd::string::StringExecFns;
use crate::error::ErrorKind;
use crate::extraction::{bindings, lemma_bindings_domain, lemma_bindings_first, paired, Extraction};
use crate::engine::regex_accepts;
use crate::matcher::{
    anchored_expression,
    compile,
    fill,
    is_decomposition,
    lemma_match_of_unambiguous_name_is_exact,
    lemma_match_takes_filename_apart,
    match_spec,
    CompiledMatcher,
};
use crate::pattern::{
    is_pattern,
    parse_spec,
    placeholder_names,
    Pattern,
    Segment,
    SegmentView,
};
use crate::text::string_views;

verus! {

/// What stands in the place of one segment of a destination pattern: its
/// text for a literal, the value bound to its name for a placeholder, and
/// `None` for a placeholder whose name is not bound.
pub open spec fn substituted_segment(
    segment: SegmentView,
    values: Map<Seq<char>, Seq<char>>,
) -> Option<Seq<char>> {
    match segment {
        SegmentView::Literal(text) => Some(text),
        SegmentView::Placeholder(name) => if values.contains_key(name) {
            Some(values[name])
        } else {
            None
        },
    }
}

/// The name that a destination pattern gives with `values` in the places of
/// its placeholders, or `None` where it holds a placeholder whose name is
/// not bound.
pub open spec fn substituted(
    segments: Seq<SegmentView>,
    values: Map<Seq<char>, Seq<char>>,
) -> Option<Seq<char>>
    decreases segments.len(),
{
    if segments.len() == 0 {
        Some(Seq::empty())
    } else {
        match (substituted_segment(segments[0], values), substituted(segments.skip(1), values)) {
            (Some(first), Some(rest)) => Some(first + rest),
            _ => None,
        }
    }
}

/// The new name of `filename`, or the reason why it has none: it does not
/// match the source pattern, or the destination pattern asks for a name
/// that the match did not bind.
pub open spec fn rename_spec(
    source: Seq<SegmentView>,
    destination: Seq<SegmentView>,
    filename: Seq<char>,
) -> Result<Seq<char>, ErrorKind> {
    match match_spec(source, filename) {
        Some(values) => match substituted(destination, values) {
            Some(renamed) => Ok(renamed),
            None => Err(ErrorKind::UnknownPlaceholder),
        },
        None => Err(ErrorKind::PatternMismatch),
    }
}

/// What becomes of one file name in a plan, as a mathematical value.
pub enum PlanEntryView {
    /// The file is to be renamed.
    Renamed { original: Seq<char>, renamed: Seq<char> },
    /// The file cannot be renamed.
    Failed { original: Seq<char>, reason: ErrorKind },
}

/// What becomes of one file name in a plan.
#[derive(Clone, Debug, PartialEq, Eq)]
pub enum PlanEntry {
    /// The file is to be renamed from `original` to `renamed`.
    Renamed { original: String, renamed: String },
    /// The file `original` cannot be renamed, for the given reason.
    Failed { original: String, reason: ErrorKind },
}

impl View for PlanEntry {
    type V = PlanEntryView;

    open spec fn view(&self) -> PlanEntryView {
        match self {
            PlanEntry::Renamed { original, renamed } => PlanEntryView::Renamed {
                original: original@,
                renamed: renamed@,
            },
            PlanEntry::Failed { original, reason } => PlanEntryView::Failed {
                original: original@,
                reason: *reason,
            },
        }
    }
}

impl PlanEntryView {
    /// The file name that the entry is about.
    pub open spec fn original(self) -> Seq<char> {
        match self {
            PlanEntryView::Renamed { original, .. } => original,
            PlanEntryView::Failed { original, .. } => original,
        }
    }
}

impl PlanEntry {
    /// The file name that the entry is about.
    pub fn original(&self) -> (name: &String)
        ensures
            name@ == self@.original(),
    {
        match self {
            PlanEntry::Renamed { original, .. } => original,
            PlanEntry::Failed { original, .. } => original,
        }
    }

    /// Whether the entry gives a new name.
    pub fn is_renamed(&self) -> (renamed: bool)
        ensures
            renamed == (self@ is Renamed),
    {
        match self {
            PlanEntry::Renamed { .. } => true,
            PlanEntry::Failed { .. } => false,
        }
    }
}

/// The views of a sequence of plan entries, in the same order.
pub open spec fn plan_entry_views(entries: Seq<PlanEntry>) -> Seq<PlanEntryView> {
    entries.map_values(|entry: PlanEntry| entry@)
}

/// The plan entry of one file name.
pub open spec fn entry_spec(
    source: Seq<SegmentView>,
    destination: Seq<SegmentView>,
    filename: Seq<char>,
) -> PlanEntryView {
    match rename_spec(source, destination, filename) {
        Ok(renamed) => PlanEntryView::Renamed { original: filename, renamed },
        Err(reason) => PlanEntryView::Failed { original: filename, reason },
    }
}

/// The plan for a batch of file names: the entry of each, in the order of
/// the file names.
pub open spec fn plan_spec(
    source: Seq<SegmentView>,
    destination: Seq<SegmentView>,
    filenames: Seq<Seq<char>>,
) -> Seq<PlanEntryView> {
    Seq::new(filenames.len(), |i: int| entry_spec(source, destination, filenames[i]))
}

/// No file name keeps the batch from going on: in a plan, the entries of
/// the file names before and after any one of them are what they would be
/// without it.
pub proof fn lemma_entries_stand_alone(
    source: Seq<SegmentView>,
    destination: Seq<SegmentView>,
    before: Seq<Seq<char>>,
    filename: Seq<char>,
    after: Seq<Seq<char>>,
)
    ensures
        plan_spec(source, destination, before + seq![filename] + after) == plan_spec(
            source,
            destination,
            before,
        ) + seq![entry_spec(source, destination, filename)] + plan_spec(source, destination, after),
{
    assert(plan_spec(source, destination, before + seq![filename] + after) =~= plan_spec(
        source,
        destination,
        before,
    ) + seq![entry_spec(source, destination, filename)] + plan_spec(source, destination, after));
}

/// A plan holds one entry for each file name, in the order of the file
/// names.
pub proof fn lemma_plan_keeps_order(
    source: Seq<SegmentView>,
    destination: Seq<SegmentView>,
    filenames: Seq<Seq<char>>,
)
    ensures
        plan_spec(source, destination, filenames).len() == filenames.len(),
        forall|i: int|
            0 <= i < filenames.len() ==> (#[trigger] plan_spec(
                source,
                destination,
                filenames,
            )[i]).original() == filenames[i],
{
}

/// A destination pattern can be filled exactly if each of its placeholders
/// has a value.
pub proof fn lemma_substituted_needs_every_name(
    destination: Seq<SegmentView>,
    values: Map<Seq<char>, Seq<char>>,
)
    ensures
        substituted(destination, values) is Some <==> forall|i: int|
            0 <= i < placeholder_names(destination).len() ==> values.contains_key(
                #[trigger] placeholder_names(destination)[i],
            ),
    decreases destination.len(),
{
    if destination.len() > 0 {
        let rest = destination.skip(1);
        let names = placeholder_names(destination);
        let later = placeholder_names(rest);
        lemma_substituted_needs_every_name(rest, values);
        match destination[0] {
            SegmentView::Literal(_) => {},
            SegmentView::Placeholder(name) => {
                assert(names[0] == name);
                assert forall|i: int| 0 <= i < later.len() implies later[i] == names[i + 1] by {}
                if substituted(destination, values) is Some {
                    assert forall|i: int| 0 <= i < names.len() implies values.contains_key(
                        #[trigger] names[i],
                    ) by {
                        if i > 0 {
                            assert(names[i] == later[i - 1]);
                        }
                    }
                }
                if forall|i: int|
                    0 <= i < names.len() ==> values.contains_key(#[trigger] names[i]) {
                    assert(values.contains_key(names[0]));
                    assert forall|i: int| 0 <= i < later.len() implies values.contains_key(
                        #[trigger] later[i],
                    ) by {
                        assert(later[i] == names[i + 1]);
                    }
                }
            },
        }
    }
}

/// Whether a file name that matches gets a new name depends on the two
/// patterns alone: it fails with `UnknownPlaceholder` exactly if the
/// destination pattern holds a name that the source pattern does not hold.
pub proof fn lemma_unknown_placeholder_is_told_by_the_patterns(
    source: Seq<SegmentView>,
    destination: Seq<SegmentView>,
    filename: Seq<char>,
)
    requires
        match_spec(source, filename) is Some,
    ensures
        rename_spec(source, destination, filename) is Ok <==> forall|i: int|
            0 <= i < placeholder_names(destination).len() ==> placeholder_names(source).contains(
                #[trigger] placeholder_names(destination)[i],
            ),
        rename_spec(source, destination, filename) is Err ==> rename_spec(
            source,
            destination,
            filename,
        ) == Err::<Seq<char>, ErrorKind>(ErrorKind::UnknownPlaceholder),
{
    lemma_match_takes_filename_apart(source, filename);
    let values = choose|values: Seq<Seq<char>>|
        #![trigger is_decomposition(source, values, filename)]
        is_decomposition(source, values, filename) && match_spec(source, filename) == Some(
            bindings(paired(placeholder_names(source), values)),
        );
    let names = placeholder_names(source);
    let pairs = paired(names, values);
    let bound = bindings(pairs);
    let wanted = placeholder_names(destination);
    lemma_substituted_needs_every_name(destination, bound);
    assert forall|name: Seq<char>| bound.contains_key(name) <==> names.contains(name) by {
        lemma_bindings_domain(pairs, name);
        if names.contains(name) {
            let i = choose|i: int| 0 <= i < names.len() && names[i] == name;
            assert(pairs[i].0 == name);
        }
        if bound.contains_key(name) {
            let i = choose|i: int| 0 <= i < pairs.len() && (#[trigger] pairs[i]).0 == name;
            assert(names[i] == name);
        }
    }
}

/// Where each placeholder's name is bound to the value that stands at the
/// placeholder's position, putting values in by name gives what putting
/// them in by position gives.
proof fn lemma_substituted_is_fill(
    segments: Seq<SegmentView>,
    values: Seq<Seq<char>>,
    bound: Map<Seq<char>, Seq<char>>,
)
    requires
        values.len() == placeholder_names(segments).len(),
        forall|k: int|
            0 <= k < values.len() ==> bound.contains_key(#[trigger] placeholder_names(segments)[k])
                && bound[placeholder_names(segments)[k]] == values[k],
    ensures
        substituted(segments, bound) == Some(fill(segments, values)),
    decreases segments.len(),
{
    if segments.len() > 0 {
        let rest = segments.skip(1);
        let names = placeholder_names(segments);
        match segments[0] {
            SegmentView::Literal(_) => {
                lemma_substituted_is_fill(rest, values, bound);
            },
            SegmentView::Placeholder(name) => {
                let later = placeholder_names(rest);
                assert(names[0] == name);
                assert forall|k: int| 0 <= k < values.skip(1).len() implies bound.contains_key(
                    #[trigger] later[k],
                ) && bound[later[k]] == values.skip(1)[k] by {
                    assert(later[k] == names[k + 1]);
                }
                lemma_substituted_is_fill(rest, values.skip(1), bound);
            },
        }
    }
}

/// A file name that was made from values gets its new name from those
/// values. Where `filename` is the source pattern with `values` in the
/// places of its placeholders and can be taken apart in no other way, no
/// name stands twice in the source pattern, the destination pattern holds
/// no other names, and the engine finds the match, then each name is bound
/// to its value and the new name is the destination pattern with these
/// values in the places of its placeholders.
pub proof fn lemma_rename_puts_the_values_in(
    source: Seq<SegmentView>,
    destination: Seq<SegmentView>,
    values: Seq<Seq<char>>,
    filename: Seq<char>,
)
    requires
        is_decomposition(source, values, filename),
        forall|other: Seq<Seq<char>>| #[trigger]
            is_decomposition(source, other, filename) ==> other == values,
        placeholder_names(source).no_duplicates(),
        forall|i: int|
            0 <= i < placeholder_names(destination).len() ==> placeholder_names(source).contains(
                #[trigger] placeholder_names(destination)[i],
            ),
        match_spec(source, filename) is Some,
    ensures
        match_spec(source, filename) == Some(bindings(paired(placeholder_names(source), values))),
        forall|k: int|
            0 <= k < values.len() ==> bindings(paired(placeholder_names(source), values))[
                #[trigger] placeholder_names(source)[k]
            ] == values[k],
        substituted(destination, bindings(paired(placeholder_names(source), values))) is Some,
        rename_spec(source, destination, filename) == Ok::<Seq<char>, ErrorKind>(
            substituted(destination, bindings(paired(placeholder_names(source), values)))->0,
        ),
{
    let names = placeholder_names(source);
    let pairs = paired(names, values);
    lemma_match_of_unambiguous_name_is_exact(source, values, filename);
    lemma_unknown_placeholder_is_told_by_the_patterns(source, destination, filename);
    assert forall|k: int| 0 <= k < values.len() implies bindings(pairs)[#[trigger] names[k]]
        == values[k] by {
        assert(pairs[k] == (names[k], values[k]));
        assert forall|j: int| 0 <= j < k implies (#[trigger] pairs[j]).0 != pairs[k].0 by {
            assert(pairs[j].0 == names[j]);
        }
        lemma_bindings_first(pairs, k);
    }
}

/// Renaming by a pattern to that same pattern changes nothing: a file name
/// that matches a pattern in which no name stands twice gets its own name
/// when the pattern is also the destination.
pub proof fn lemma_same_pattern_keeps_the_name(segments: Seq<SegmentView>, filename: Seq<char>)
    requires
        placeholder_names(segments).no_duplicates(),
        match_spec(segments, filename) is Some,
    ensures
        rename_spec(segments, segments, filename) == Ok::<Seq<char>, ErrorKind>(filename),
{
    lemma_match_takes_filename_apart(segments, filename);
    let values = choose|values: Seq<Seq<char>>|
        #![trigger is_decomposition(segments, values, filename)]
        is_decomposition(segments, values, filename) && match_spec(segments, filename) == Some(
            bindings(paired(placeholder_names(segments), values)),
        );
    let names = placeholder_names(segments);
    let pairs = paired(names, values);
    assert forall|k: int| 0 <= k < values.len() implies bindings(pairs).contains_key(
        #[trigger] names[k],
    ) && bindings(pairs)[names[k]] == values[k] by {
        assert(pairs[k] == (names[k], values[k]));
        assert forall|j: int| 0 <= j < k implies (#[trigger] pairs[j]).0 != pairs[k].0 by {
            assert(pairs[j].0 == names[j]);
        }
        lemma_bindings_first(pairs, k);
    }
    lemma_substituted_is_fill(segments, values, bindings(pairs));
}

/// Puts the extracted values into the destination pattern.
///
/// Each placeholder of `destination` is replaced by the value bound to its
/// name; literal text stays. Fails with `UnknownPlaceholder` where
/// `destination` holds a placeholder whose name is not bound.
pub fn substitute(destination: &Pattern, extraction: &Extraction) -> (renamed: Result<
    String,
    ErrorKind,
>)
    ensures
        match renamed {
            Ok(name) => substituted(destination@, extraction@) == Some(name@),
            Err(reason) => reason == ErrorKind::UnknownPlaceholder && substituted(
                destination@,
                extraction@,
            ) is None,
        },
{
    let mut name = String::new();
    let mut i: usize = 0;
    proof {
        assert(destination@.skip(0) == destination@);
        assert forall|rest: Seq<char>| #[trigger] (name@ + rest) == rest by {
            assert(name@ + rest =~= rest);
        }
    }
    while i < destination.segments.len()
        invariant
            i <= destination.segments.len(),
            substituted(destination@, extraction@) == match substituted(
                destination@.skip(i as int),
                extraction@,
            ) {
                Some(rest) => Some(name@ + rest),
                None => None,
            },
        decreases destination.segments.len() - i,
    {
        let ghost done = name@;
        let ghost tail = destination@.skip(i + 1);
        assert(destination@.skip(i as int)[0] == destination.segments@[i as int]@);
        assert(destination@.skip(i as int).skip(1) == tail);
        match &destination.segments[i] {
            Segment::Literal(text) => {
                name.append(text.as_str());
                assert forall|rest: Seq<char>| done + (text@ + rest) == #[trigger] ((done + text@)
                    + rest) by {
                    assert(done + (text@ + rest) =~= (done + text@) + rest);
                }
            },
            Segment::Placeholder(key) => {
                match extraction.get(key.as_str()) {
                    Some(value) => {
                        name.append(value.as_str());
                        assert forall|rest: Seq<char>| done + (value@ + rest) == #[trigger] ((done
                            + value@) + rest) by {
                            assert(done + (value@ + rest) =~= (done + value@) + rest);
                        }
                    },
                    None => {
                        return Err(ErrorKind::UnknownPlaceholder);
                    },
                }
            },
        }
        i = i + 1;
    }
    proof {
        assert(destination@.skip(i as int).len() == 0);
        assert(name@ + Seq::<char>::empty() =~= name@);
    }
    Ok(name)
}

/// The view of the outcome of renaming one file name.
pub open spec fn rename_view(renamed: Result<String, ErrorKind>) -> Result<Seq<char>, ErrorKind> {
    match renamed {
        Ok(name) => Ok(name@),
        Err(reason) => Err(reason),
    }
}

/// The new name of `filename`: its parts as `matcher` captures them, put
/// into `destination`.
///
/// Fails with `PatternMismatch` where `filename` does not match, and with
/// `UnknownPlaceholder` where it matches and `destination` asks for a name
/// that the match did not bind.
pub fn rename(matcher: &CompiledMatcher, destination: &Pattern, filename: &str) -> (renamed:
    Result<String, ErrorKind>)
    ensures
        rename_view(renamed) == rename_spec(matcher@, destination@, filename@),
{
    match matcher.match_filename(filename) {
        Some(extraction) => substitute(destination, &extraction),
        None => Err(ErrorKind::PatternMismatch),
    }
}

/// The plan entry of `filename`: its new name, or the reason why it has
/// none.
pub fn plan_entry(matcher: &CompiledMatcher, destination: &Pattern, filename: &str) -> (entry:
    PlanEntry)
    ensures
        entry@ == entry_spec(matcher@, destination@, filename@),
{
    let original = filename.to_owned();
    match rename(matcher, destination, filename) {
        Ok(renamed) => PlanEntry::Renamed { original, renamed },
        Err(reason) => PlanEntry::Failed { original, reason },
    }
}

/// The plan for `filenames` under a compiled source pattern and a
/// destination pattern: one entry for each file name, in the order of the
/// file names, each made from its own file name alone.
pub fn plan_all(
    matcher: &CompiledMatcher,
    destination: &Pattern,
    filenames: &Vec<String>,
) -> (entries: Vec<PlanEntry>)
    ensures
        plan_entry_views(entries@) == plan_spec(matcher@, destination@, string_views(filenames@)),
        entries.len() == filenames.len(),
        forall|i: int|
            0 <= i < entries.len() ==> (#[trigger] entries[i])@.original() == filenames[i]@,
{
    let mut entries: Vec<PlanEntry> = Vec::new();
    let mut i: usize = 0;
    while i < filenames.len()
        invariant
            i <= filenames.len(),
            entries.len() == i,
            forall|j: int|
                0 <= j < i ==> (#[trigger] entries[j])@ == entry_spec(
                    matcher@,
                    destination@,
                    filenames[j]@,
                ),
        decreases filenames.len() - i,
    {
        let entry = plan_entry(matcher, destination, filenames[i].as_str());
        entries.push(entry);
        i = i + 1;
    }
    assert(plan_entry_views(entries@) =~= plan_spec(
        matcher@,
        destination@,
        string_views(filenames@),
    ));
    entries
}

/// Plans the renaming of `filenames` from `source_pattern` to
/// `destination_pattern`.
///
/// The result holds one entry for each file name, in the order of the file
/// names. An entry depends on its own file name only: a file name that does
/// not match is recorded as `PatternMismatch`, one whose new name would
/// need a value that the source pattern does not capture as
/// `UnknownPlaceholder`, and the entries after it are made all the same.
///
/// Fails as a whole with `MalformedPattern`, before any file name is looked
/// at, where one of the two patterns is not a pattern, and also where the
/// matching engine refuses what the source pattern is lowered to. Succeeds
/// in every other case.
pub fn plan(filenames: &Vec<String>, source_pattern: &str, destination_pattern: &str) -> (planned:
    Result<Vec<PlanEntry>, ErrorKind>)
    ensures
        planned is Ok <==> is_pattern(source_pattern@) && is_pattern(destination_pattern@)
            && regex_accepts(anchored_expression(parse_spec(source_pattern@)->0)),
        planned matches Err(reason) ==> reason == ErrorKind::MalformedPattern,
        planned matches Ok(entries) ==> {
            &&& is_pattern(source_pattern@)
            &&& is_pattern(destination_pattern@)
            &&& plan_entry_views(entries@) == plan_spec(
                parse_spec(source_pattern@)->0,
                parse_spec(destination_pattern@)->0,
                string_views(filenames@),
            )
            &&& entries.len() == filenames.len()
            &&& forall|i: int|
                0 <= i < entries.len() ==> (#[trigger] entries[i])@.original() == filenames[i]@
        },
{
    let matcher = match compile(source_pattern) {
        Ok(matcher) => matcher,
        Err(reason) => { return Err(reason); },
    };
    let destination = match Pattern::parse(destination_pattern) {
        Ok(destination) => destination,
        Err(reason) => { return Err(reason); },
    };
    Ok(plan_all(&matcher, &destination, filenames))
}

/// The new name of the one file name `orig_str`: its parts as
/// `orig_format` captures them, put into `new_format`.
///
/// Fails with `MalformedPattern` where one of the two patterns is not a
/// pattern, and also where the matching engine refuses what `orig_format`
/// is lowered to; with `PatternMismatch` where `orig_str` does not match
/// `orig_format`; with `UnknownPlaceholder` where `new_format` asks for a
/// name that `orig_format` does not capture.
pub fn reformat_string(orig_str: &str, orig_format: &str, new_format: &str) -> (renamed: Result<
    String,
    ErrorKind,
>)
    ensures
        rename_view(renamed) == (if is_pattern(orig_format@) && is_pattern(new_format@)
            && regex_accepts(anchored_expression(parse_spec(orig_format@)->0)) {
            rename_spec(parse_spec(orig_format@)->0, parse_spec(new_format@)->0, orig_str@)
        } else {
            Err::<Seq<char>, ErrorKind>(ErrorKind::MalformedPattern)
        }),
{
    let matcher = match compile(orig_format) {
        Ok(matcher) => matcher,
        Err(reason) => { return Err(reason); },
    };
    let destination = match Pattern::parse(new_format) {
        Ok(destination) => destination,
        Err(reason) => { return Err(reason); },
    };
    rename(&matcher, &destination, orig_str)
}

} // verus!
