//! Directory listings: which entries of a directory are files, and in which
//! order they are renamed.
//!
//! The library does not read a directory. The caller hands over what it
//! found there, each entry with its name and whether it is a directory.
//! Entries are put in the order of their names, compared byte by byte in
//! UTF-8, and directories are left out before any name is matched.

use vstd::multiset::Multiset;
use vstd::prelude::*;
use vstd::seq_lib::to_multiset_build;
use vstd::seq_lib::to_multiset_insert;
use vstd::string::StringSliceAdditionalSpecFns;
use vstd::utf8::encode_utf8;
use vstd::utf8::encode_utf8_decode_utf8;
use crate::engine::regex_accepts;
use crate::error::ErrorKind;
use crate::matcher::anchored_expression;
use crate::pattern::{is_pattern, parse_spec};
use crate::pattern::SegmentView;
use crate::planner::{entry_spec, plan, plan_entry_views, plan_spec, PlanEntry, PlanEntryView};
use crate::text::string_views;

verus! {

/// One entry of a directory, as a mathematical value.
pub struct DirectoryEntryView {
    pub name: Seq<char>,
    pub is_directory: bool,
}

/// One entry of a directory: its name, and whether it is a directory
/// itself.
#[derive(Clone, Debug, PartialEq, Eq)]
pub struct DirectoryEntry {
    pub name: String,
    pub is_directory: bool,
}

impl View for DirectoryEntry {
    type V = DirectoryEntryView;

    open spec fn view(&self) -> DirectoryEntryView {
        DirectoryEntryView { name: self.name@, is_directory: self.is_directory }
    }
}

/// The views of a sequence of entries, in the same order.
pub open spec fn entry_views(entries: Seq<DirectoryEntry>) -> Seq<DirectoryEntryView> {
    entries.map_values(|entry: DirectoryEntry| entry@)
}

/// Whether `a` comes before `b`, or is equal to it, when the two are
/// compared byte by byte: at the first byte in which they differ the
/// smaller byte decides, and a sequence comes before those that it starts.
pub open spec fn bytes_le(a: Seq<u8>, b: Seq<u8>) -> bool
    decreases a.len(),
{
    if a.len() == 0 {
        true
    } else if b.len() == 0 {
        false
    } else if a[0] == b[0] {
        bytes_le(a.skip(1), b.skip(1))
    } else {
        a[0] < b[0]
    }
}

/// Whether the name `a` comes before the name `b`, or is equal to it: the
/// order of their bytes in UTF-8.
pub open spec fn name_le(a: Seq<char>, b: Seq<char>) -> bool {
    bytes_le(encode_utf8(a), encode_utf8(b))
}

/// Whether `entries` stand in the order of their names.
pub open spec fn sorted_by_name(entries: Seq<DirectoryEntryView>) -> bool {
    forall|i: int, j: int|
        0 <= i < j < entries.len() ==> name_le(
            (#[trigger] entries[i]).name,
            (#[trigger] entries[j]).name,
        )
}

/// The names of the entries that are not directories, in the order of the
/// entries.
pub open spec fn file_names_spec(entries: Seq<DirectoryEntryView>) -> Seq<Seq<char>>
    decreases entries.len(),
{
    if entries.len() == 0 {
        Seq::empty()
    } else if entries[0].is_directory {
        file_names_spec(entries.skip(1))
    } else {
        seq![entries[0].name] + file_names_spec(entries.skip(1))
    }
}

/// The entries that bear the name `name`, in the order of the entries.
pub open spec fn named(entries: Seq<DirectoryEntryView>, name: Seq<char>) -> Seq<
    DirectoryEntryView,
> {
    entries.filter(|entry: DirectoryEntryView| entry.name == name)
}

/// Whether `listing` is `entries` put in order: it holds the same entries,
/// each as often, they stand in the order of their names, and entries of
/// one name stand as they stood in `entries`.
pub open spec fn is_sorted_listing(
    listing: Seq<DirectoryEntryView>,
    entries: Seq<DirectoryEntryView>,
) -> bool {
    &&& sorted_by_name(listing)
    &&& listing.to_multiset() == entries.to_multiset()
    &&& forall|name: Seq<char>| #[trigger] named(listing, name) == named(entries, name)
}

/// The entries put in order: the one sorted listing that they have.
pub open spec fn sorted_listing(entries: Seq<DirectoryEntryView>) -> Seq<DirectoryEntryView> {
    choose|listing: Seq<DirectoryEntryView>| is_sorted_listing(listing, entries)
}

/// Of two byte sequences, one comes before the other or is equal to it.
pub proof fn lemma_bytes_le_total(a: Seq<u8>, b: Seq<u8>)
    ensures
        bytes_le(a, b) || bytes_le(b, a),
    decreases a.len(),
{
    if a.len() > 0 && b.len() > 0 && a[0] == b[0] {
        lemma_bytes_le_total(a.skip(1), b.skip(1));
    }
}

/// A byte sequence is equal to itself, so it comes before itself or is
/// equal to it.
pub proof fn lemma_bytes_le_reflexive(a: Seq<u8>)
    ensures
        bytes_le(a, a),
    decreases a.len(),
{
    if a.len() > 0 {
        lemma_bytes_le_reflexive(a.skip(1));
    }
}

/// The order of byte sequences is transitive.
pub proof fn lemma_bytes_le_transitive(a: Seq<u8>, b: Seq<u8>, c: Seq<u8>)
    requires
        bytes_le(a, b),
        bytes_le(b, c),
    ensures
        bytes_le(a, c),
    decreases a.len(),
{
    if a.len() > 0 && b.len() > 0 && c.len() > 0 && a[0] == b[0] && b[0] == c[0] {
        lemma_bytes_le_transitive(a.skip(1), b.skip(1), c.skip(1));
    }
}

/// A sequence without elements adds nothing to a multiset.
proof fn lemma_empty_multiset(s: Seq<DirectoryEntryView>)
    requires
        s.len() == 0,
    ensures
        forall|m: Multiset<DirectoryEntryView>| #[trigger] s.to_multiset().add(m) == m,
        forall|m: Multiset<DirectoryEntryView>| #[trigger] m.add(s.to_multiset()) == m,
{
    broadcast use vstd::seq_lib::group_to_multiset_ensures;

    assert(s.to_multiset().len() == 0);
    assert(s.to_multiset() =~= Multiset::empty());
    assert forall|m: Multiset<DirectoryEntryView>| #[trigger] s.to_multiset().add(m) == m by {
        assert(s.to_multiset().add(m) =~= m);
    }
    assert forall|m: Multiset<DirectoryEntryView>| #[trigger] m.add(s.to_multiset()) == m by {
        assert(m.add(s.to_multiset()) =~= m);
    }
}

/// Byte sequences that come before each other are equal.
pub proof fn lemma_bytes_le_antisymmetric(a: Seq<u8>, b: Seq<u8>)
    requires
        bytes_le(a, b),
        bytes_le(b, a),
    ensures
        a == b,
    decreases a.len(),
{
    if a.len() > 0 && b.len() > 0 {
        lemma_bytes_le_antisymmetric(a.skip(1), b.skip(1));
        assert(a =~= seq![a[0]] + a.skip(1));
        assert(b =~= seq![b[0]] + b.skip(1));
    } else {
        assert(a =~= b);
    }
}

/// Names that come before each other are equal.
pub proof fn lemma_name_le_antisymmetric(a: Seq<char>, b: Seq<char>)
    requires
        name_le(a, b),
        name_le(b, a),
    ensures
        a == b,
{
    lemma_bytes_le_antisymmetric(encode_utf8(a), encode_utf8(b));
    encode_utf8_decode_utf8(a);
    encode_utf8_decode_utf8(b);
}

/// Among the entries that bear the name of the first entry, the first
/// entry comes first.
proof fn lemma_first_is_first_of_its_name(entries: Seq<DirectoryEntryView>)
    requires
        entries.len() > 0,
    ensures
        named(entries, entries[0].name).len() > 0,
        named(entries, entries[0].name)[0] == entries[0],
        forall|name: Seq<char>|
            name != entries[0].name ==> #[trigger] named(entries, name) == named(
                entries.drop_first(),
                name,
            ),
        named(entries, entries[0].name).drop_first() == named(
            entries.drop_first(),
            entries[0].name,
        ),
{
    let first = entries[0];
    let rest = entries.drop_first();
    assert(entries =~= seq![first] + rest);
    assert forall|name: Seq<char>| #[trigger]
        named(entries, name) == named(seq![first], name) + named(rest, name) by {
        lemma_named_after_insert(rest, 0, first, name);
    }
    assert forall|name: Seq<char>| #[trigger]
        named(seq![first], name) == (if name == first.name {
            seq![first]
        } else {
            Seq::<DirectoryEntryView>::empty()
        }) by {
        lemma_named_one(first, name);
    }
    assert forall|name: Seq<char>| name != first.name implies #[trigger] named(entries, name)
        == named(rest, name) by {
        assert(named(seq![first], name) + named(rest, name) =~= named(rest, name));
    }
    assert(named(entries, first.name) == seq![first] + named(rest, first.name));
    assert((seq![first] + named(rest, first.name)).drop_first() =~= named(rest, first.name));
}

/// Two listings that are in order and hold the same entries, those of each
/// name in the same order, are the same.
proof fn lemma_sorted_alike_are_equal(a: Seq<DirectoryEntryView>, b: Seq<DirectoryEntryView>)
    requires
        sorted_by_name(a),
        sorted_by_name(b),
        a.to_multiset() == b.to_multiset(),
        forall|name: Seq<char>| #[trigger] named(a, name) == named(b, name),
    ensures
        a == b,
    decreases a.len(),
{
    broadcast use vstd::seq_lib::group_to_multiset_ensures;

    assert(a.len() == a.to_multiset().len());
    assert(b.len() == b.to_multiset().len());
    if a.len() == 0 {
        assert(a =~= b);
    } else {
        assert(b.contains(b[0]));
        assert(a.to_multiset().count(b[0]) > 0);
        assert(a.contains(b[0]));
        let i = choose|i: int| 0 <= i < a.len() && a[i] == b[0];
        assert(a.contains(a[0]));
        assert(b.to_multiset().count(a[0]) > 0);
        assert(b.contains(a[0]));
        let j = choose|j: int| 0 <= j < b.len() && b[j] == a[0];
        lemma_bytes_le_reflexive(encode_utf8(a[0].name));
        lemma_bytes_le_reflexive(encode_utf8(b[0].name));
        assert(name_le(a[0].name, a[i].name));
        assert(name_le(b[0].name, b[j].name));
        lemma_name_le_antisymmetric(a[0].name, b[0].name);
        lemma_first_is_first_of_its_name(a);
        lemma_first_is_first_of_its_name(b);
        let name = a[0].name;
        assert(named(a, name) == named(b, name));
        assert(a[0] == b[0]);
        let rest_a = a.drop_first();
        let rest_b = b.drop_first();
        assert(rest_a =~= a.remove(0));
        assert(rest_b =~= b.remove(0));
        assert(rest_a.to_multiset() == rest_b.to_multiset());
        assert forall|i: int, j: int| 0 <= i < j < rest_a.len() implies name_le(
            (#[trigger] rest_a[i]).name,
            (#[trigger] rest_a[j]).name,
        ) by {
            assert(rest_a[i] == a[i + 1]);
            assert(rest_a[j] == a[j + 1]);
        }
        assert forall|i: int, j: int| 0 <= i < j < rest_b.len() implies name_le(
            (#[trigger] rest_b[i]).name,
            (#[trigger] rest_b[j]).name,
        ) by {
            assert(rest_b[i] == b[i + 1]);
            assert(rest_b[j] == b[j + 1]);
        }
        assert forall|other: Seq<char>| #[trigger]
            named(rest_a, other) == named(rest_b, other) by {
            assert(named(a, other) == named(b, other));
        }
        lemma_sorted_alike_are_equal(rest_a, rest_b);
        assert(a =~= seq![a[0]] + rest_a);
        assert(b =~= seq![b[0]] + rest_b);
    }
}

/// Entries have one sorted listing.
pub proof fn lemma_sorted_listing_is_unique(
    listing: Seq<DirectoryEntryView>,
    entries: Seq<DirectoryEntryView>,
)
    requires
        is_sorted_listing(listing, entries),
    ensures
        listing == sorted_listing(entries),
{
    let chosen = sorted_listing(entries);
    assert(is_sorted_listing(chosen, entries));
    assert forall|name: Seq<char>| #[trigger] named(listing, name) == named(chosen, name) by {
        assert(named(listing, name) == named(entries, name));
        assert(named(chosen, name) == named(entries, name));
    }
    lemma_sorted_alike_are_equal(listing, chosen);
}

/// Putting an entry in, at a place before which no entry bears its name,
/// puts it in front of the entries of its name and leaves the entries of
/// every other name as they were.
proof fn lemma_named_after_insert(
    placed: Seq<DirectoryEntryView>,
    at: int,
    entry: DirectoryEntryView,
    name: Seq<char>,
)
    requires
        0 <= at <= placed.len(),
        forall|j: int| 0 <= j < at ==> (#[trigger] placed[j]).name != entry.name,
    ensures
        named(placed.insert(at, entry), name) == named(seq![entry], name) + named(placed, name),
        named(seq![entry] + placed, name) == named(seq![entry], name) + named(placed, name),
{
    let bears = |e: DirectoryEntryView| e.name == name;
    let front = placed.take(at);
    let back = placed.skip(at);
    assert(placed.insert(at, entry) =~= (front + seq![entry]) + back);
    assert(placed =~= front + back);
    Seq::filter_distributes_over_add(front + seq![entry], back, bears);
    Seq::filter_distributes_over_add(front, seq![entry], bears);
    Seq::filter_distributes_over_add(front, back, bears);
    Seq::filter_distributes_over_add(seq![entry], placed, bears);
    if name == entry.name {
        assert(front.all(|e: DirectoryEntryView| !bears(e)));
        front.lemma_all_neg_filter_empty(bears);
        assert(front.filter(bears) =~= Seq::empty());
        assert(front.filter(bears) + seq![entry].filter(bears) =~= seq![entry].filter(bears));
        assert(front.filter(bears) + back.filter(bears) =~= back.filter(bears));
    } else {
        assert(seq![entry].all(|e: DirectoryEntryView| !bears(e)));
        seq![entry].lemma_all_neg_filter_empty(bears);
        assert(seq![entry].filter(bears) =~= Seq::empty());
        assert(front.filter(bears) + seq![entry].filter(bears) =~= front.filter(bears));
        assert(seq![entry].filter(bears) + placed.filter(bears) =~= placed.filter(bears));
    }
}

/// What one entry alone holds under a name.
proof fn lemma_named_one(entry: DirectoryEntryView, name: Seq<char>)
    ensures
        named(seq![entry], name) == (if entry.name == name {
            seq![entry]
        } else {
            Seq::<DirectoryEntryView>::empty()
        }),
{
    let bears = |e: DirectoryEntryView| e.name == name;
    let none = Seq::<DirectoryEntryView>::empty();
    none.lemma_filter_len(bears);
    none.lemma_filter_push(entry, bears);
    assert(none.push(entry) =~= seq![entry]);
    assert(none.filter(bears) =~= none);
}

/// Taking an entry out takes it out of the entries of its name, at the
/// place that it has among them, and leaves the entries of every other
/// name as they were.
proof fn lemma_named_after_remove(entries: Seq<DirectoryEntryView>, k: int, name: Seq<char>)
    requires
        0 <= k < entries.len(),
    ensures
        entries[k].name != name ==> named(entries.remove(k), name) == named(entries, name),
        entries[k].name == name ==> {
            let r = named(entries.take(k), name).len() as int;
            &&& r < named(entries, name).len()
            &&& named(entries, name)[r] == entries[k]
            &&& named(entries.remove(k), name) == named(entries, name).remove(r)
        },
{
    let bears = |e: DirectoryEntryView| e.name == name;
    let front = entries.take(k);
    let back = entries.skip(k + 1);
    let one = seq![entries[k]];
    assert(entries =~= (front + one) + back);
    assert(entries.remove(k) =~= front + back);
    Seq::filter_distributes_over_add(front + one, back, bears);
    Seq::filter_distributes_over_add(front, one, bears);
    Seq::filter_distributes_over_add(front, back, bears);
    lemma_named_one(entries[k], name);
    let nf = front.filter(bears);
    let nb = back.filter(bears);
    if entries[k].name == name {
        assert(((nf + one) + nb).remove(nf.len() as int) =~= nf + nb);
        assert(((nf + one) + nb)[nf.len() as int] == entries[k]);
    } else {
        assert(nf + Seq::<DirectoryEntryView>::empty() =~= nf);
    }
}

/// Where the entry stands that is a given one among the entries of a name.
proof fn lemma_named_index(entries: Seq<DirectoryEntryView>, name: Seq<char>, r: int) -> (k: int)
    requires
        0 <= r < named(entries, name).len(),
    ensures
        0 <= k < entries.len(),
        entries[k].name == name,
        entries[k] == named(entries, name)[r],
        named(entries.take(k), name).len() == r,
    decreases entries.len(),
{
    let bears = |e: DirectoryEntryView| e.name == name;
    entries.lemma_filter_len(bears);
    let front = entries.drop_last();
    let last = entries.last();
    assert(entries =~= front.push(last));
    front.lemma_filter_push(last, bears);
    if r < named(front, name).len() {
        let k = lemma_named_index(front, name, r);
        assert(entries.take(k) =~= front.take(k));
        k
    } else {
        assert(entries.take(entries.len() - 1) =~= front);
        entries.len() - 1
    }
}

/// Putting an entry in keeps the order, where no entry before its place
/// has a name that comes after its own and every entry from its place on
/// has a name that does not come before its own.
proof fn lemma_insert_keeps_order(
    placed: Seq<DirectoryEntryView>,
    at: int,
    entry: DirectoryEntryView,
)
    requires
        sorted_by_name(placed),
        0 <= at <= placed.len(),
        forall|j: int| 0 <= j < at ==> !name_le(entry.name, (#[trigger] placed[j]).name),
        forall|j: int|
            at <= j < placed.len() ==> name_le(entry.name, (#[trigger] placed[j]).name),
    ensures
        sorted_by_name(placed.insert(at, entry)),
{
    let now = placed.insert(at, entry);
    assert forall|i: int, j: int| 0 <= i < j < now.len() implies name_le(
        (#[trigger] now[i]).name,
        (#[trigger] now[j]).name,
    ) by {
        if j == at {
            assert(now[i] == placed[i]);
            lemma_bytes_le_total(encode_utf8(entry.name), encode_utf8(now[i].name));
        } else if i == at {
            assert(now[j] == placed[j - 1]);
        } else {
            let pi = if i < at { i } else { i - 1 };
            let pj = if j < at { j } else { j - 1 };
            assert(now[i] == placed[pi]);
            assert(now[j] == placed[pj]);
        }
    }
}

/// The place at which an entry of the name `name` goes into `listing`: the
/// number of entries at its start before whose names `name` does not come
/// and to whose names it is not equal.
pub open spec fn place_for(listing: Seq<DirectoryEntryView>, name: Seq<char>) -> nat
    decreases listing.len(),
{
    if listing.len() == 0 || name_le(name, listing[0].name) {
        0
    } else {
        1 + place_for(listing.skip(1), name)
    }
}

/// In a listing that is in order, the place for a name parts the entries
/// whose names come before it from the others.
proof fn lemma_place_for(listing: Seq<DirectoryEntryView>, name: Seq<char>)
    requires
        sorted_by_name(listing),
    ensures
        place_for(listing, name) <= listing.len(),
        forall|j: int|
            0 <= j < place_for(listing, name) ==> !name_le(name, (#[trigger] listing[j]).name),
        forall|j: int|
            place_for(listing, name) <= j < listing.len() ==> name_le(
                name,
                (#[trigger] listing[j]).name,
            ),
    decreases listing.len(),
{
    if listing.len() == 0 {
    } else if name_le(name, listing[0].name) {
        assert forall|j: int| 0 <= j < listing.len() implies name_le(
            name,
            (#[trigger] listing[j]).name,
        ) by {
            if j > 0 {
                lemma_bytes_le_transitive(
                    encode_utf8(name),
                    encode_utf8(listing[0].name),
                    encode_utf8(listing[j].name),
                );
            }
        }
    } else {
        let rest = listing.skip(1);
        assert forall|i: int, j: int| 0 <= i < j < rest.len() implies name_le(
            (#[trigger] rest[i]).name,
            (#[trigger] rest[j]).name,
        ) by {
            assert(rest[i] == listing[i + 1]);
            assert(rest[j] == listing[j + 1]);
        }
        lemma_place_for(rest, name);
        let at = place_for(listing, name);
        assert forall|j: int| 0 <= j < at implies !name_le(name, (#[trigger] listing[j]).name) by {
            if j > 0 {
                assert(listing[j] == rest[j - 1]);
            }
        }
        assert forall|j: int| at <= j < listing.len() implies name_le(
            name,
            (#[trigger] listing[j]).name,
        ) by {
            assert(listing[j] == rest[j - 1]);
        }
    }
}

/// Entries have a sorted listing, whatever they are.
pub proof fn lemma_sorted_listing_exists(entries: Seq<DirectoryEntryView>)
    ensures
        is_sorted_listing(sorted_listing(entries), entries),
    decreases entries.len(),
{
    broadcast use vstd::seq_lib::group_to_multiset_ensures;

    if entries.len() == 0 {
        assert(is_sorted_listing(entries, entries));
    } else {
        let rest = entries.drop_first();
        let entry = entries[0];
        lemma_sorted_listing_exists(rest);
        let placed = sorted_listing(rest);
        let at = place_for(placed, entry.name) as int;
        lemma_place_for(placed, entry.name);
        lemma_insert_keeps_order(placed, at, entry);
        let listing = placed.insert(at, entry);
        assert(listing.to_multiset() == placed.to_multiset().insert(entry));
        assert(entries.remove(0) =~= rest);
        assert(rest.to_multiset() == entries.to_multiset().remove(entry));
        assert(entries.contains(entry));
        assert(entries.to_multiset().count(entry) > 0);
        assert(entries.to_multiset() =~= rest.to_multiset().insert(entry));
        assert forall|j: int| 0 <= j < at implies (#[trigger] placed[j]).name != entry.name by {
            lemma_bytes_le_reflexive(encode_utf8(entry.name));
        }
        assert(entries =~= seq![entry] + rest);
        assert forall|name: Seq<char>| #[trigger] named(listing, name) == named(entries, name) by {
            lemma_named_after_insert(placed, at, entry, name);
            lemma_named_after_insert(rest, 0, entry, name);
            assert(named(placed, name) == named(rest, name));
        }
        assert(is_sorted_listing(listing, entries));
    }
}

/// The sorted listing of entries without one of them is their sorted
/// listing without that one.
pub proof fn lemma_sorted_listing_without(entries: Seq<DirectoryEntryView>, i: int) -> (k: int)
    requires
        0 <= i < entries.len(),
    ensures
        0 <= k < sorted_listing(entries).len(),
        sorted_listing(entries)[k] == entries[i],
        sorted_listing(entries.remove(i)) == sorted_listing(entries).remove(k),
{
    broadcast use vstd::seq_lib::group_to_multiset_ensures;

    lemma_sorted_listing_exists(entries);
    let listing = sorted_listing(entries);
    let name = entries[i].name;
    lemma_named_after_remove(entries, i, name);
    let r = named(entries.take(i), name).len() as int;
    assert(named(listing, name) == named(entries, name));
    let k = lemma_named_index(listing, name, r);
    let less = listing.remove(k);
    assert forall|a: int, b: int| 0 <= a < b < less.len() implies name_le(
        (#[trigger] less[a]).name,
        (#[trigger] less[b]).name,
    ) by {
        let pa = if a < k { a } else { a + 1 };
        let pb = if b < k { b } else { b + 1 };
        assert(less[a] == listing[pa]);
        assert(less[b] == listing[pb]);
    }
    assert(less.to_multiset() == listing.to_multiset().remove(listing[k]));
    assert(entries.remove(i).to_multiset() == entries.to_multiset().remove(entries[i]));
    assert forall|other: Seq<char>| #[trigger]
        named(less, other) == named(entries.remove(i), other) by {
        lemma_named_after_remove(listing, k, other);
        lemma_named_after_remove(entries, i, other);
        assert(named(listing, other) == named(entries, other));
    }
    lemma_sorted_listing_is_unique(less, entries.remove(i));
    k
}

/// The names of the files of two runs of entries, one after the other.
proof fn lemma_file_names_of_both(a: Seq<DirectoryEntryView>, b: Seq<DirectoryEntryView>)
    ensures
        file_names_spec(a + b) == file_names_spec(a) + file_names_spec(b),
    decreases a.len(),
{
    if a.len() == 0 {
        assert(a + b =~= b);
        assert(file_names_spec(a) + file_names_spec(b) =~= file_names_spec(b));
    } else {
        lemma_file_names_of_both(a.skip(1), b);
        assert((a + b).skip(1) =~= a.skip(1) + b);
        assert((a + b)[0] == a[0]);
        if !a[0].is_directory {
            assert(seq![a[0].name] + (file_names_spec(a.skip(1)) + file_names_spec(b)) =~= (
            seq![a[0].name] + file_names_spec(a.skip(1))) + file_names_spec(b));
        }
    }
}

/// Taking a directory out changes no file name; taking a file out takes
/// its name out, at the place that it has among the names of the files.
proof fn lemma_file_names_after_remove(entries: Seq<DirectoryEntryView>, k: int)
    requires
        0 <= k < entries.len(),
    ensures
        entries[k].is_directory ==> file_names_spec(entries.remove(k)) == file_names_spec(
            entries,
        ),
        !entries[k].is_directory ==> {
            let j = file_names_spec(entries.take(k)).len() as int;
            &&& j < file_names_spec(entries).len()
            &&& file_names_spec(entries)[j] == entries[k].name
            &&& file_names_spec(entries.remove(k)) == file_names_spec(entries).remove(j)
        },
{
    let front = entries.take(k);
    let back = entries.skip(k + 1);
    let one = seq![entries[k]];
    assert(entries =~= (front + one) + back);
    assert(entries.remove(k) =~= front + back);
    lemma_file_names_of_both(front + one, back);
    lemma_file_names_of_both(front, one);
    lemma_file_names_of_both(front, back);
    assert(one.skip(1).len() == 0);
    assert(file_names_spec(one.skip(1)) =~= Seq::<Seq<char>>::empty());
    assert(one[0] == entries[k]);
    let ff = file_names_spec(front);
    let fb = file_names_spec(back);
    if entries[k].is_directory {
        assert(file_names_spec(one) =~= Seq::<Seq<char>>::empty());
        assert(ff + Seq::<Seq<char>>::empty() =~= ff);
    } else {
        let names = seq![entries[k].name];
        assert(file_names_spec(one) =~= names);
        assert(((ff + names) + fb).remove(ff.len() as int) =~= ff + fb);
        assert(((ff + names) + fb)[ff.len() as int] == entries[k].name);
    }
}

/// What is planned for the entries of a directory: the plan for the names
/// of its files, in the order of the sorted listing.
pub open spec fn directory_plan(
    source: Seq<SegmentView>,
    destination: Seq<SegmentView>,
    entries: Seq<DirectoryEntryView>,
) -> Seq<PlanEntryView> {
    plan_spec(source, destination, file_names_spec(sorted_listing(entries)))
}

/// No entry of a directory touches what is planned for the others. Without
/// one of its files, whether that file can be renamed or not, the plan is
/// the plan for all entries with the entry of that file taken out: no other
/// entry comes or goes, changes, or moves. Without one of its directories
/// the plan is the same.
pub proof fn lemma_directory_plan_without_one_entry(
    source: Seq<SegmentView>,
    destination: Seq<SegmentView>,
    entries: Seq<DirectoryEntryView>,
    i: int,
)
    requires
        0 <= i < entries.len(),
    ensures
        entries[i].is_directory ==> directory_plan(source, destination, entries.remove(i))
            == directory_plan(source, destination, entries),
        !entries[i].is_directory ==> exists|j: int|
            {
                &&& 0 <= j < directory_plan(source, destination, entries).len()
                &&& #[trigger] directory_plan(source, destination, entries)[j] == entry_spec(
                    source,
                    destination,
                    entries[i].name,
                )
                &&& directory_plan(source, destination, entries.remove(i)) == directory_plan(
                    source,
                    destination,
                    entries,
                ).remove(j)
            },
{
    let listing = sorted_listing(entries);
    let k = lemma_sorted_listing_without(entries, i);
    lemma_file_names_after_remove(listing, k);
    if !entries[i].is_directory {
        let names = file_names_spec(listing);
        let j = file_names_spec(listing.take(k)).len() as int;
        let all = directory_plan(source, destination, entries);
        assert(all[j] == entry_spec(source, destination, entries[i].name));
        assert(plan_spec(source, destination, names.remove(j)) =~= all.remove(j));
    }
}

/// Whether the name `a` comes before the name `b` or is equal to it.
pub fn name_precedes(a: &str, b: &str) -> (le: bool)
    ensures
        le == name_le(a@, b@),
{
    let x = a.as_bytes();
    let y = b.as_bytes();
    let mut k: usize = 0;
    proof {
        assert(x@.skip(0) == x@);
        assert(y@.skip(0) == y@);
    }
    while k < x.len() && k < y.len()
        invariant
            k <= x.len(),
            k <= y.len(),
            x@ == encode_utf8(a@),
            y@ == encode_utf8(b@),
            bytes_le(x@, y@) == bytes_le(x@.skip(k as int), y@.skip(k as int)),
        decreases x.len() - k,
    {
        assert(x@.skip(k as int)[0] == x@[k as int]);
        assert(y@.skip(k as int)[0] == y@[k as int]);
        if x[k] != y[k] {
            return x[k] < y[k];
        }
        assert(x@.skip(k as int).skip(1) == x@.skip(k + 1));
        assert(y@.skip(k as int).skip(1) == y@.skip(k + 1));
        k = k + 1;
    }
    k == x.len()
}

/// Where an entry of the name `name` goes into `sorted`: the first place
/// at which no entry before it has a name that comes after `name`, found
/// by halving.
fn insertion_point(sorted: &Vec<DirectoryEntry>, name: &str) -> (at: usize)
    requires
        sorted_by_name(entry_views(sorted@)),
    ensures
        at <= sorted.len(),
        forall|j: int|
            0 <= j < at ==> !name_le(name@, (#[trigger] entry_views(sorted@)[j]).name),
        forall|j: int|
            at <= j < sorted.len() ==> name_le(name@, (#[trigger] entry_views(sorted@)[j]).name),
{
    let ghost placed = entry_views(sorted@);
    let mut low: usize = 0;
    let mut high: usize = sorted.len();
    while low < high
        invariant
            low <= high <= sorted.len(),
            placed == entry_views(sorted@),
            sorted_by_name(placed),
            forall|j: int| 0 <= j < low ==> !name_le(name@, (#[trigger] placed[j]).name),
            forall|j: int| high <= j < placed.len() ==> name_le(name@, (#[trigger] placed[j]).name),
        decreases high - low,
    {
        let middle = low + (high - low) / 2;
        assert(placed[middle as int] == sorted@[middle as int]@);
        let ghost pivot = encode_utf8(placed[middle as int].name);
        if name_precedes(name, sorted[middle].name.as_str()) {
            assert forall|j: int| middle <= j < placed.len() implies name_le(
                name@,
                (#[trigger] placed[j]).name,
            ) by {
                if j > middle {
                    lemma_bytes_le_transitive(
                        encode_utf8(name@),
                        pivot,
                        encode_utf8(placed[j].name),
                    );
                }
            }
            high = middle;
        } else {
            assert forall|j: int| 0 <= j <= middle implies !name_le(
                name@,
                (#[trigger] placed[j]).name,
            ) by {
                if j < middle && name_le(name@, placed[j].name) {
                    lemma_bytes_le_transitive(
                        encode_utf8(name@),
                        encode_utf8(placed[j].name),
                        pivot,
                    );
                }
            }
            low = middle + 1;
        }
    }
    low
}

/// The entries of a directory in the order of their names.
///
/// The result holds the same entries as `entries`, each as often, and no
/// entry stands after one whose name comes after its own. Entries of one
/// name keep the order in which they were given.
pub fn get_sorted_files(entries: Vec<DirectoryEntry>) -> (sorted: Vec<DirectoryEntry>)
    ensures
        is_sorted_listing(entry_views(sorted@), entry_views(entries@)),
        entry_views(sorted@) == sorted_listing(entry_views(entries@)),
{
    let ghost given = entry_views(entries@);
    let mut left = entries;
    let mut sorted: Vec<DirectoryEntry> = Vec::new();
    proof {
        assert(given.take(given.len() as int) == given);
        assert(entry_views(sorted@) =~= given.skip(given.len() as int));
        lemma_empty_multiset(entry_views(sorted@));
    }
    while left.len() > 0
        invariant
            entry_views(left@) == given.take(left.len() as int),
            left.len() <= given.len(),
            sorted_by_name(entry_views(sorted@)),
            entry_views(sorted@).to_multiset().add(entry_views(left@).to_multiset())
                == given.to_multiset(),
            forall|name: Seq<char>| #[trigger]
                named(entry_views(sorted@), name) == named(given.skip(left.len() as int), name),
        decreases left.len(),
    {
        let ghost before = entry_views(left@);
        let ghost placed = entry_views(sorted@);
        let entry = left.pop().unwrap();
        proof {
            assert(entry@ == before.last());
            assert(entry_views(left@) == before.drop_last());
            assert(before == before.drop_last().push(entry@));
            to_multiset_build(before.drop_last(), entry@);
        }
        let at = insertion_point(&sorted, entry.name.as_str());
        sorted.insert(at, entry);
        proof {
            let now = entry_views(sorted@);
            assert(now == placed.insert(at as int, entry@));
            to_multiset_insert(placed, at as int, entry@);
            assert forall|j: int| 0 <= j < at implies (#[trigger] placed[j]).name
                != entry@.name by {
                lemma_bytes_le_reflexive(encode_utf8(entry@.name));
            }
            assert(given.skip(left.len() as int) =~= seq![entry@] + given.skip(left.len() + 1));
            assert forall|name: Seq<char>| #[trigger]
                named(now, name) == named(given.skip(left.len() as int), name) by {
                lemma_named_after_insert(placed, at as int, entry@, name);
                lemma_named_after_insert(given.skip(left.len() + 1), 0, entry@, name);
            }
            assert(now.to_multiset().add(entry_views(left@).to_multiset())
                =~= placed.to_multiset().add(before.to_multiset()));
            lemma_insert_keeps_order(placed, at as int, entry@);
        }
    }
    proof {
        lemma_empty_multiset(entry_views(left@));
        assert(given.skip(0) == given);
        lemma_sorted_listing_is_unique(entry_views(sorted@), given);
    }
    sorted
}

/// The names of the entries that are not directories, in the order of the
/// entries.
pub fn file_names(entries: &Vec<DirectoryEntry>) -> (names: Vec<String>)
    ensures
        string_views(names@) == file_names_spec(entry_views(entries@)),
{
    let ghost views = entry_views(entries@);
    let mut names: Vec<String> = Vec::new();
    let mut i: usize = 0;
    proof {
        assert(views.skip(0) == views);
        assert(string_views(names@) + file_names_spec(views) =~= file_names_spec(views));
    }
    while i < entries.len()
        invariant
            i <= entries.len(),
            views == entry_views(entries@),
            file_names_spec(views) == string_views(names@) + file_names_spec(views.skip(i as int)),
        decreases entries.len() - i,
    {
        let ghost done = string_views(names@);
        let ghost rest = file_names_spec(views.skip(i + 1));
        assert(views.skip(i as int)[0] == entries@[i as int]@);
        assert(views.skip(i as int).skip(1) == views.skip(i + 1));
        if !entries[i].is_directory {
            names.push(entries[i].name.clone());
            proof {
                let name = entries@[i as int].name@;
                assert(string_views(names@) == done.push(name));
                assert(done + (seq![name] + rest) =~= done.push(name) + rest);
            }
        }
        i = i + 1;
    }
    proof {
        assert(views.skip(i as int).len() == 0);
        assert(string_views(names@) + Seq::<Seq<char>>::empty() =~= string_views(names@));
    }
    names
}

/// Plans the renaming of the files of a directory from `pat` to `new_pat`.
///
/// `listing` holds the entries that were found in the directory, in any
/// order, or `None` where the directory could not be read. The entries are
/// put in the order of their names, directories are left out, and the names
/// of the files that remain are planned as a batch: the result holds one
/// entry for each of them, in that order.
///
/// Fails as a whole with `InvalidDirectory` where there is no listing.
/// With a listing, fails as a whole with `MalformedPattern` where one of the
/// two patterns is not a pattern, and also where the matching engine refuses
/// what `pat` is lowered to. Succeeds in every other case.
pub fn process_rename(listing: Option<Vec<DirectoryEntry>>, pat: &str, new_pat: &str) -> (planned:
    Result<Vec<PlanEntry>, ErrorKind>)
    ensures
        planned is Ok <==> listing is Some && is_pattern(pat@) && is_pattern(new_pat@)
            && regex_accepts(anchored_expression(parse_spec(pat@)->0)),
        planned matches Err(reason) ==> reason == (if listing is None {
            ErrorKind::InvalidDirectory
        } else {
            ErrorKind::MalformedPattern
        }),
        planned matches Ok(plan) ==> plan_entry_views(plan@) == directory_plan(
            parse_spec(pat@)->0,
            parse_spec(new_pat@)->0,
            entry_views(listing->0@),
        ),
{
    let entries = match listing {
        Some(entries) => entries,
        None => { return Err(ErrorKind::InvalidDirectory); },
    };
    let sorted = get_sorted_files(entries);
    let names = file_names(&sorted);
    plan(&names, pat, new_pat)
}

} // verus!
