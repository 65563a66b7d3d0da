//! Register definitions: the reset value of a register and its named
//! bitfields.
//!
//! A definition accepts a bitfield only under a name that is still free and
//! on bits that no bitfield declared before occupies. So the fields of a
//! definition never overlap, and writing one of them never disturbs another.

use crate::field::{Field, ShapeError};
use crate::register::{Register, RegisterGet, Write};
use crate::span::Span;
use crate::word::Word;
use vstd::prelude::*;

verus! {

/// What a definition records of one bitfield.
pub struct Declaration {
    /// The description that came with the bitfield. It is kept as it is.
    pub doc: Seq<char>,
    /// The bits that the bitfield occupies.
    pub span: Span,
}

/// One bitfield as a definition keeps it.
struct Entry<W: Word> {
    name: String,
    doc: String,
    field: Field<W>,
}

impl<W: Word> View for Entry<W> {
    type V = Declaration;

    closed spec fn view(&self) -> Declaration {
        Declaration { doc: self.doc@, span: self.field@ }
    }
}

/// The definition of a register made of words of type `W`: its reset value
/// and its bitfields, each under its name.
pub struct Definition<W: Word> {
    reset: W,
    entries: Vec<Entry<W>>,
}

/// A definition is seen as the table of its bitfields by name.
impl<W: Word> View for Definition<W> {
    type V = Map<Seq<char>, Declaration>;

    closed spec fn view(&self) -> Map<Seq<char>, Declaration> {
        table(self.entries@)
    }
}

/// Whether the entry at `index` has the name `name`.
spec fn named<W: Word>(entries: Seq<Entry<W>>, index: int, name: Seq<char>) -> bool {
    0 <= index < entries.len() && entries[index].name@ == name
}

/// The table that a list of entries makes up.
spec fn table<W: Word>(entries: Seq<Entry<W>>) -> Map<Seq<char>, Declaration> {
    Map::new(
        |name: Seq<char>| exists|index: int| named(entries, index, name),
        |name: Seq<char>| entries[choose|index: int| named(entries, index, name)]@,
    )
}

/// Whether each bitfield of the list lies inside a word of `width` bits, no
/// two bitfields have the same name, and no two share a bit.
spec fn orderly<W: Word>(entries: Seq<Entry<W>>, width: nat) -> bool {
    &&& forall|i: int| 0 <= i < entries.len() ==> (#[trigger] entries[i]).field@.within(width)
    &&& forall|i: int, j: int|
        0 <= i < j < entries.len() ==> {
            &&& (#[trigger] entries[i]).name@ != (#[trigger] entries[j]).name@
            &&& entries[i].field@.disjoint(entries[j].field@)
        }
}

/// In an orderly list each entry is what the table holds under its name.
proof fn lemma_table_holds<W: Word>(entries: Seq<Entry<W>>, width: nat, index: int)
    requires
        orderly(entries, width),
        0 <= index < entries.len(),
    ensures
        table(entries).dom().contains(entries[index].name@),
        table(entries)[entries[index].name@] == entries[index]@,
{
    let name = entries[index].name@;
    assert(named(entries, index, name));
    let chosen = choose|chosen: int| named(entries, chosen, name);
    assert(named(entries, chosen, name));
    if chosen < index {
        assert(entries[chosen].name@ != entries[index].name@);
    } else if index < chosen {
        assert(entries[index].name@ != entries[chosen].name@);
    }
}

/// What the table holds under a name is an entry of the list.
proof fn lemma_table_source<W: Word>(entries: Seq<Entry<W>>, name: Seq<char>) -> (index: int)
    requires
        table(entries).dom().contains(name),
    ensures
        named(entries, index, name),
        table(entries)[name] == entries[index]@,
{
    choose|index: int| named(entries, index, name)
}

/// An orderly list that grows by an entry whose name is new and whose bits
/// are free makes up the table with that entry put in, and is orderly.
proof fn lemma_table_grows<W: Word>(entries: Seq<Entry<W>>, width: nat, entry: Entry<W>)
    requires
        orderly(entries, width),
        entry.field@.within(width),
        forall|i: int| 0 <= i < entries.len() ==> (#[trigger] entries[i]).name@ != entry.name@,
        forall|i: int|
            0 <= i < entries.len() ==> (#[trigger] entries[i]).field@.disjoint(entry.field@),
    ensures
        orderly(entries.push(entry), width),
        table(entries.push(entry)) == table(entries).insert(entry.name@, entry@),
{
    let grown = entries.push(entry);
    let last = entries.len() as int;
    assert(orderly(grown, width));
    assert forall|name: Seq<char>|
        table(grown).dom().contains(name) <==> #[trigger] table(entries).insert(
            entry.name@,
            entry@,
        ).dom().contains(name) by {
        if table(grown).dom().contains(name) {
            let index = lemma_table_source(grown, name);
            if index < last {
                assert(named(entries, index, name));
            }
        }
        if table(entries).dom().contains(name) {
            let index = lemma_table_source(entries, name);
            assert(named(grown, index, name));
        }
        if name == entry.name@ {
            assert(named(grown, last, name));
        }
    }
    assert forall|name: Seq<char>| #[trigger] table(grown).dom().contains(name) implies table(
        grown,
    )[name] == table(entries).insert(entry.name@, entry@)[name] by {
        let index = lemma_table_source(grown, name);
        lemma_table_holds(grown, width, index);
        if index < last {
            lemma_table_holds(entries, width, index);
        }
    }
    assert(table(grown) =~= table(entries).insert(entry.name@, entry@));
}

impl<W: Word> Definition<W> {
    /// The bit pattern that the register holds after a reset.
    pub closed spec fn reset_value(&self) -> W {
        self.reset
    }

    /// Whether a bitfield of that name is declared.
    pub open spec fn declares(&self, name: Seq<char>) -> bool {
        self@.dom().contains(name)
    }

    /// Whether a declared bitfield has a bit inside `span`.
    pub open spec fn occupies(&self, span: Span) -> bool {
        exists|name: Seq<char>|
            self@.dom().contains(name) && !(#[trigger] self@[name]).span.disjoint(span)
    }

    /// What holds of every definition: each bitfield lies inside the word, no
    /// two bitfields have the same name, and no two share a bit.
    #[verifier::type_invariant]
    pub closed spec fn well_formed(&self) -> bool {
        orderly(self.entries@, W::width())
    }

    /// The definition of a register that holds `reset` after a reset and has
    /// no bitfield yet.
    pub fn new(reset: W) -> (definition: Self)
        ensures
            definition.reset_value() == reset,
            definition@ == Map::<Seq<char>, Declaration>::empty(),
    {
        let definition = Definition { reset, entries: Vec::new() };
        assert(definition@ =~= Map::<Seq<char>, Declaration>::empty()) by {
            assert forall|name: Seq<char>| !definition@.dom().contains(name) by {
                if definition@.dom().contains(name) {
                    let index = lemma_table_source(definition.entries@, name);
                }
            }
        }
        definition
    }

    /// Declares the bitfield `field` under the name `name`, with the
    /// description `doc`.
    ///
    /// The declaration is refused as `Duplicate` when the name is taken, and
    /// as `Overlap` when the name is free and a bitfield declared before has a
    /// bit inside `field`. A refused declaration changes nothing.
    pub fn declare(&mut self, name: &str, doc: &str, field: Field<W>) -> (declared: Result<
        (),
        ShapeError,
    >)
        ensures
            final(self).reset_value() == old(self).reset_value(),
            declared is Ok <==> !old(self).declares(name@) && !old(self).occupies(field@),
            declared is Ok ==> final(self)@ == old(self)@.insert(
                name@,
                Declaration { doc: doc@, span: field@ },
            ),
            declared is Err ==> final(self)@ == old(self)@,
            declared is Err ==> declared->Err_0 == if old(self).declares(name@) {
                ShapeError::Duplicate
            } else {
                ShapeError::Overlap
            },
    {
        proof {
            use_type_invariant(&*self);
            use_type_invariant(field);
        }
        if self.position(name).is_some() {
            return Err(ShapeError::Duplicate);
        }
        let count = self.entries.len();
        let mut i: usize = 0;
        while i < count
            invariant
                i <= count,
                count == self.entries@.len(),
                *self == *old(self),
                orderly(self.entries@, W::width()),
                !self.declares(name@),
                forall|k: int| 0 <= k < i ==> (#[trigger] self.entries@[k]).field@.disjoint(field@),
            decreases count - i,
        {
            if self.entries[i].field.overlaps(&field) {
                proof {
                    lemma_table_holds(self.entries@, W::width(), i as int);
                    assert(!self@[self.entries@[i as int].name@].span.disjoint(field@));
                }
                return Err(ShapeError::Overlap);
            }
            i += 1;
        }
        let entry = Entry { name: name.to_owned(), doc: doc.to_owned(), field };
        proof {
            assert forall|k: int| 0 <= k < count implies (#[trigger] self.entries@[k]).name@
                != name@ by {
                lemma_table_holds(self.entries@, W::width(), k);
            }
            assert(!self.occupies(field@)) by {
                if self.occupies(field@) {
                    let taken = choose|taken: Seq<char>|
                        self@.dom().contains(taken) && !(#[trigger] self@[taken]).span.disjoint(
                            field@,
                        );
                    let index = lemma_table_source(self.entries@, taken);
                }
            }
            lemma_table_grows(self.entries@, W::width(), entry);
        }
        // The list grows outside the definition, which is whole at every
        // moment: empty while the list is away, complete once it is back.
        let mut entries: Vec<Entry<W>> = Vec::new();
        core::mem::swap(&mut self.entries, &mut entries);
        entries.push(entry);
        core::mem::swap(&mut self.entries, &mut entries);
        Ok(())
    }

    /// Where in the list the bitfield of the name `name` stands, if it is
    /// declared.
    fn position(&self, name: &str) -> (found: Option<usize>)
        ensures
            found is Some <==> self.declares(name@),
            found is Some ==> named(self.entries@, found->Some_0 as int, name@),
    {
        let wanted = name.to_owned();
        let count = self.entries.len();
        let mut i: usize = 0;
        while i < count
            invariant
                i <= count,
                count == self.entries@.len(),
                wanted@ == name@,
                forall|k: int| 0 <= k < i ==> !named(self.entries@, k, name@),
            decreases count - i,
        {
            if self.entries[i].name == wanted {
                assert(named(self.entries@, i as int, name@));
                return Some(i);
            }
            i += 1;
        }
        proof {
            if self.declares(name@) {
                let index = lemma_table_source(self.entries@, name@);
            }
        }
        None
    }

    /// The bitfield declared under the name `name`, if there is one.
    pub fn field(&self, name: &str) -> (found: Option<Field<W>>)
        ensures
            found is Some <==> self.declares(name@),
            found is Some ==> found->Some_0@ == self@[name@].span,
    {
        proof {
            use_type_invariant(self);
        }
        match self.position(name) {
            Some(i) => {
                proof {
                    lemma_table_holds(self.entries@, W::width(), i as int);
                }
                Some(self.entries[i].field)
            },
            None => None,
        }
    }

    /// The description of the bitfield declared under the name `name`, if
    /// there is one.
    pub fn doc(&self, name: &str) -> (found: Option<&str>)
        ensures
            found is Some <==> self.declares(name@),
            found is Some ==> found->Some_0@ == self@[name@].doc,
    {
        proof {
            use_type_invariant(self);
        }
        match self.position(name) {
            Some(i) => {
                proof {
                    lemma_table_holds(self.entries@, W::width(), i as int);
                }
                Some(self.entries[i].doc.as_str())
            },
            None => None,
        }
    }

    /// The register value that holds the reset value, in any mode. In `Write`
    /// mode it is the start of a value that is written from scratch.
    pub fn default_value<MODE>(&self) -> (register: Register<W, MODE>)
        ensures
            register.raw() == self.reset_value(),
    {
        Register::holding(self.reset)
    }

    /// The word that a reset leaves in the register. It is what a register
    /// value that starts from the reset value gives when no field of it has
    /// been written.
    pub fn reset(&self) -> (bits: W)
        ensures
            bits == self.reset_value(),
    {
        self.default_value::<Write>().bits()
    }

    /// Every bitfield of a definition lies inside the word.
    pub proof fn lemma_fields_within(&self, name: Seq<char>)
        requires
            self.well_formed(),
            self.declares(name),
        ensures
            self@[name].span.within(W::width()),
    {
        let index = lemma_table_source(self.entries@, name);
    }

    /// No two bitfields of a definition share a bit.
    pub proof fn lemma_fields_disjoint(&self, first: Seq<char>, second: Seq<char>)
        requires
            self.well_formed(),
            self.declares(first),
            self.declares(second),
            first != second,
        ensures
            self@[first].span.disjoint(self@[second].span),
    {
        let i = lemma_table_source(self.entries@, first);
        let j = lemma_table_source(self.entries@, second);
        if i < j {
            assert(self.entries@[i].field@.disjoint(self.entries@[j].field@));
        } else {
            assert(self.entries@[j].field@.disjoint(self.entries@[i].field@));
        }
    }

    /// Writing one bitfield of a definition does not change what any other of
    /// its bitfields holds.
    pub proof fn lemma_fields_isolated(
        &self,
        written: Seq<char>,
        other: Seq<char>,
        bits: nat,
        value: nat,
    )
        requires
            self.well_formed(),
            self.declares(written),
            self.declares(other),
            written != other,
            self@[written].span.admits(value),
        ensures
            self@[other].span.get(self@[written].span.set(bits, value)) == self@[other].span.get(
                bits,
            ),
    {
        self.lemma_fields_disjoint(written, other);
        self@[written].span.lemma_isolation(self@[other].span, bits, value);
    }
}

} // verus!
