//! The two dictionaries of the codec: the encoder's, from byte strings to
//! their index, kept in an insertion-ordered `IndexSet`, and the decoder's,
//! from index to byte string, kept in a `Vec`. Both start with the 256
//! one-byte strings, byte `b` at index `b`.
use indexmap::IndexSet;
use vstd::prelude::*;

verus! {

#[verifier::external_type_specification]
#[verifier::external_body]
#[verifier::reject_recursive_types(T)]
#[verifier::reject_recursive_types(S)]
pub struct ExIndexSet<T, S>(IndexSet<T, S>);

/// The items of a set of byte strings, in insertion order.
pub uninterp spec fn set_entries(s: IndexSet<Vec<u8>>) -> Seq<Seq<u8>>;

/// Relies on `IndexSet::new`: a new set is empty.
#[verifier::external_body]
fn index_set_new() -> (r: IndexSet<Vec<u8>>)
    ensures
        set_entries(r) == Seq::<Seq<u8>>::empty(),
{
    IndexSet::new()
}

/// Relies on `IndexSet::len`: the number of items.
#[verifier::external_body]
fn index_set_len(s: &IndexSet<Vec<u8>>) -> (r: usize)
    ensures
        r == set_entries(*s).len(),
{
    s.len()
}

/// Relies on `IndexSet::clear`: no item is left.
#[verifier::external_body]
fn index_set_clear(s: &mut IndexSet<Vec<u8>>)
    ensures
        set_entries(*final(s)) == Seq::<Seq<u8>>::empty(),
{
    s.clear()
}

/// Relies on `IndexSet::insert`: an item equal to one present leaves the set
/// as it is and gives `false`; any other is appended and gives `true`.
#[verifier::external_body]
fn index_set_insert(s: &mut IndexSet<Vec<u8>>, value: Vec<u8>) -> (r: bool)
    ensures
        r == !set_entries(*old(s)).contains(value@),
        r ==> set_entries(*final(s)) == set_entries(*old(s)).push(value@),
        !r ==> set_entries(*final(s)) == set_entries(*old(s)),
{
    s.insert(value)
}

/// Relies on `IndexSet::contains`: whether an equal item is present.
#[verifier::external_body]
fn index_set_contains(s: &IndexSet<Vec<u8>>, value: &Vec<u8>) -> (r: bool)
    ensures
        r == set_entries(*s).contains(value@),
{
    s.contains(value)
}

/// Relies on `IndexSet::get_index_of`: the position of an equal item, if
/// one is present.
#[verifier::external_body]
fn index_set_get_index_of(s: &IndexSet<Vec<u8>>, value: &Vec<u8>) -> (r: Option<usize>)
    ensures
        r matches Some(i) ==> i < set_entries(*s).len() && set_entries(*s)[i as int] == value@,
        r is None ==> !set_entries(*s).contains(value@),
{
    s.get_index_of(value)
}

/// The 256 one-byte strings, byte `b` at index `b`.
pub open spec fn initial_entries() -> Seq<Seq<u8>> {
    Seq::new(256, |i: int| seq![i as u8])
}

/// The position of `w` among `entries`, where it occurs.
pub open spec fn code_of(entries: Seq<Seq<u8>>, w: Seq<u8>) -> nat {
    (choose|i: int| 0 <= i < entries.len() && entries[i] == w) as nat
}

/// In a sequence without repeats, the entry at `i` has code `i`.
pub proof fn lemma_code_of_unique(entries: Seq<Seq<u8>>, i: int)
    requires
        entries.no_duplicates(),
        0 <= i < entries.len(),
    ensures
        code_of(entries, entries[i]) == i,
{
    let w = entries[i];
    assert(exists|j: int| 0 <= j < entries.len() && entries[j] == w);
}

/// The one-byte strings hold no repeats.
pub proof fn lemma_initial_entries_distinct()
    ensures
        initial_entries().no_duplicates(),
        initial_entries().len() == 256,
{
    assert forall|i: int, j: int|
        0 <= i < 256 && 0 <= j < 256 && i != j implies initial_entries()[i]
        != initial_entries()[j] by {
        assert(initial_entries()[i][0] == i as u8);
        assert(initial_entries()[j][0] == j as u8);
    }
}

/// The encoder's dictionary: byte strings in the order they were added, none
/// twice.
pub struct CompressDictionary {
    set: IndexSet<Vec<u8>>,
}

impl View for CompressDictionary {
    type V = Seq<Seq<u8>>;

    closed spec fn view(&self) -> Seq<Seq<u8>> {
        set_entries(self.set)
    }
}

impl CompressDictionary {
    pub closed spec fn wf(&self) -> bool {
        self@.no_duplicates()
    }

    /// A dictionary holding the 256 one-byte strings.
    pub fn new() -> (r: CompressDictionary)
        ensures
            r.wf(),
            r@ == initial_entries(),
    {
        let mut d = CompressDictionary { set: index_set_new() };
        d.fill_initial();
        d
    }

    fn fill_initial(&mut self)
        requires
            old(self)@ == Seq::<Seq<u8>>::empty(),
        ensures
            final(self).wf(),
            final(self)@ == initial_entries(),
    {
        proof {
            lemma_initial_entries_distinct();
        }
        let mut b: u16 = 0;
        while b < 256
            invariant
                b <= 256,
                self@ == initial_entries().take(b as int),
                initial_entries().no_duplicates(),
            decreases 256 - b,
        {
            let ghost before = self@;
            let mut entry: Vec<u8> = Vec::new();
            entry.push(b as u8);
            assert(!before.contains(entry@)) by {
                if before.contains(entry@) {
                    let k = choose|k: int| 0 <= k < before.len() && before[k] == entry@;
                    assert(initial_entries()[k] == initial_entries()[b as int]);
                }
            }
            index_set_insert(&mut self.set, entry);
            b = b + 1;
            assert(self@ =~= initial_entries().take(b as int));
        }
        assert(initial_entries().take(256) =~= initial_entries());
    }

    /// Returns the dictionary to its initial 256 entries.
    pub fn reset(&mut self)
        ensures
            final(self).wf(),
            final(self)@ == initial_entries(),
    {
        index_set_clear(&mut self.set);
        self.fill_initial();
    }

    /// The number of entries.
    pub fn len(&self) -> (r: usize)
        ensures
            r == self@.len(),
    {
        index_set_len(&self.set)
    }

    /// Whether `w` is an entry.
    pub fn contains(&self, w: &Vec<u8>) -> (r: bool)
        ensures
            r == self@.contains(w@),
    {
        index_set_contains(&self.set, w)
    }

    /// The index of `w`, if it is an entry.
    pub fn index_of(&self, w: &Vec<u8>) -> (r: Option<usize>)
        requires
            self.wf(),
        ensures
            r matches Some(i) ==> i == code_of(self@, w@) && i < self@.len() && self@[i as int]
                == w@,
            r is None <==> !self@.contains(w@),
    {
        let r = index_set_get_index_of(&self.set, w);
        proof {
            if let Some(i) = r {
                lemma_code_of_unique(self@, i as int);
            }
        }
        r
    }

    /// Appends `w`, which is not yet an entry, at the next index.
    pub fn insert(&mut self, w: Vec<u8>)
        requires
            old(self).wf(),
            !old(self)@.contains(w@),
        ensures
            final(self).wf(),
            final(self)@ == old(self)@.push(w@),
    {
        index_set_insert(&mut self.set, w);
    }
}

} // verus!
