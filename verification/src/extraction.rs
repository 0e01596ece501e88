//! What a match extracts from a file name: a value for each placeholder
//! name.

use vstd::prelude::*;

verus! {

/// A name and the value bound to it, as mathematical values.
pub type BindingView = (Seq<char>, Seq<char>);

/// The views of a list of bindings, in the same order.
pub open spec fn binding_views(pairs: Seq<(String, String)>) -> Seq<BindingView> {
    pairs.map_values(|pair: (String, String)| (pair.0@, pair.1@))
}

/// The mapping that a list of bindings stands for. Where a name is bound
/// more than once, the first of its bindings counts.
pub open spec fn bindings(pairs: Seq<BindingView>) -> Map<Seq<char>, Seq<char>>
    decreases pairs.len(),
{
    if pairs.len() == 0 {
        Map::empty()
    } else {
        let earlier = bindings(pairs.drop_last());
        if earlier.contains_key(pairs.last().0) {
            earlier
        } else {
            earlier.insert(pairs.last().0, pairs.last().1)
        }
    }
}

/// The bindings of `names` to `values`, position by position.
pub open spec fn paired(names: Seq<Seq<char>>, values: Seq<Seq<char>>) -> Seq<BindingView>
    recommends
        names.len() == values.len(),
{
    Seq::new(names.len(), |i: int| (names[i], values[i]))
}

/// A name is bound by a list exactly if one of its bindings is for that
/// name.
pub proof fn lemma_bindings_domain(pairs: Seq<BindingView>, name: Seq<char>)
    ensures
        bindings(pairs).contains_key(name) <==> exists|i: int|
            0 <= i < pairs.len() && (#[trigger] pairs[i]).0 == name,
    decreases pairs.len(),
{
    if pairs.len() == 0 {
    } else {
        let front = pairs.drop_last();
        lemma_bindings_domain(front, name);
        lemma_bindings_domain(front, pairs.last().0);
        if bindings(pairs).contains_key(name) {
            if bindings(front).contains_key(name) {
                let i = choose|i: int| 0 <= i < front.len() && (#[trigger] front[i]).0 == name;
                assert(pairs[i].0 == name);
            } else {
                assert(pairs[pairs.len() - 1].0 == name);
            }
        }
        if exists|i: int| 0 <= i < pairs.len() && (#[trigger] pairs[i]).0 == name {
            let i = choose|i: int| 0 <= i < pairs.len() && (#[trigger] pairs[i]).0 == name;
            if i < front.len() {
                assert(front[i].0 == name);
            }
        }
    }
}

/// The value bound to a name is that of the first binding for the name.
pub proof fn lemma_bindings_first(pairs: Seq<BindingView>, i: int)
    requires
        0 <= i < pairs.len(),
        forall|j: int| 0 <= j < i ==> (#[trigger] pairs[j]).0 != pairs[i].0,
    ensures
        bindings(pairs).contains_key(pairs[i].0),
        bindings(pairs)[pairs[i].0] == pairs[i].1,
    decreases pairs.len(),
{
    let front = pairs.drop_last();
    if i == pairs.len() - 1 {
        lemma_bindings_domain(front, pairs[i].0);
        if bindings(front).contains_key(pairs[i].0) {
            let j = choose|j: int| 0 <= j < front.len() && (#[trigger] front[j]).0 == pairs[i].0;
            assert(pairs[j].0 == pairs[i].0);
        }
    } else {
        assert(front[i] == pairs[i]);
        assert forall|j: int| 0 <= j < i implies (#[trigger] front[j]).0 != front[i].0 by {
            assert(front[j] == pairs[j]);
        }
        lemma_bindings_first(front, i);
    }
}

/// The values that one match extracted from a file name, by placeholder
/// name. Where the pattern holds a name more than once, the value of its
/// first occurrence is the one found under the name.
#[derive(Clone, Debug, PartialEq, Eq)]
pub struct Extraction {
    /// The bindings, each a name and its value, in the order in which they
    /// were made.
    pub pairs: Vec<(String, String)>,
}

impl View for Extraction {
    type V = Map<Seq<char>, Seq<char>>;

    open spec fn view(&self) -> Map<Seq<char>, Seq<char>> {
        bindings(binding_views(self.pairs@))
    }
}

impl Extraction {
    /// An extraction from a list of bindings, each a name and its value.
    pub fn from_pairs(pairs: Vec<(String, String)>) -> (extraction: Extraction)
        ensures
            extraction.pairs == pairs,
    {
        Extraction { pairs }
    }

    /// Whether no name is bound.
    pub fn is_empty(&self) -> (empty: bool)
        ensures
            empty == (self@ == Map::<Seq<char>, Seq<char>>::empty()),
    {
        let empty = self.pairs.len() == 0;
        proof {
            if !empty {
                let views = binding_views(self.pairs@);
                assert(views[0].0 == views[0].0);
                lemma_bindings_domain(views, views[0].0);
                assert(self@.contains_key(views[0].0));
            }
        }
        empty
    }

    /// The value bound to `name`, if any.
    pub fn get(&self, name: &str) -> (value: Option<&String>)
        ensures
            match value {
                Some(text) => self@.contains_key(name@) && self@[name@] == text@,
                None => !self@.contains_key(name@),
            },
    {
        let key = name.to_owned();
        let ghost views = binding_views(self.pairs@);
        let mut i: usize = 0;
        while i < self.pairs.len()
            invariant
                i <= self.pairs.len(),
                key@ == name@,
                views == binding_views(self.pairs@),
                forall|j: int| 0 <= j < i ==> (#[trigger] views[j]).0 != name@,
            decreases self.pairs.len() - i,
        {
            if self.pairs[i].0 == key {
                proof {
                    assert(views[i as int].0 == name@);
                    lemma_bindings_first(views, i as int);
                }
                return Some(&self.pairs[i].1);
            }
            assert(views[i as int].0 != name@);
            i = i + 1;
        }
        proof {
            lemma_bindings_domain(views, name@);
        }
        None
    }
}

} // verus!
