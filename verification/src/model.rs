//! The in-memory todo list: an ordered sequence of entries, addressed by
//! position. Adding appends; removing at a position shifts later entries
//! one place down.

use vstd::prelude::*;

use crate::codec;

verus! {

/// The mathematical value of a single entry: its title and body as
/// character sequences.
pub struct EntryView {
    pub title: Seq<char>,
    pub body: Seq<char>,
}

/// A single todo item: a title and a free-text body.
#[derive(Debug)]
pub struct TodoEntry {
    pub title: String,
    pub body: String,
}

impl View for TodoEntry {
    type V = EntryView;

    open spec fn view(&self) -> EntryView {
        EntryView { title: self.title@, body: self.body@ }
    }
}

impl DeepView for TodoEntry {
    type V = EntryView;

    open spec fn deep_view(&self) -> EntryView {
        self@
    }
}

/// The errors the library reports: a removal at a position past the end,
/// and a persisted document that cannot be parsed.
#[derive(Debug, PartialEq, Eq, Structural, Clone, Copy)]
pub enum TodoError {
    NoSuchEntry,
    Serialization,
}

/// The ordered collection of entries. Its view is the sequence of entry
/// values, in insertion order; positions `0..len` address the entries.
#[derive(Debug)]
pub struct TodoList {
    entries: Vec<TodoEntry>,
}

impl View for TodoList {
    type V = Seq<EntryView>;

    closed spec fn view(&self) -> Seq<EntryView> {
        self.entries.deep_view()
    }
}

impl TodoList {
    /// The empty list.
    pub fn new() -> (r: TodoList)
        ensures
            r@ == Seq::<EntryView>::empty(),
    {
        let l = TodoList { entries: Vec::new() };
        proof {
            assert(l@ =~= Seq::<EntryView>::empty());
        }
        l
    }

    /// A read-only view of all entries, in insertion order.
    pub fn entries(&self) -> (r: &Vec<TodoEntry>)
        ensures
            r.deep_view() == self@,
    {
        &self.entries
    }

    /// Appends `entry` at the end; always succeeds.
    pub fn add_entry(&mut self, entry: TodoEntry)
        ensures
            final(self)@ == old(self)@.push(entry@),
    {
        self.entries.push(entry);
    }

    /// Removes the entry at position `index`. When `index` is in range the
    /// entry at that position goes away and every later entry shifts one
    /// place down; otherwise the list is unchanged and the call reports
    /// `NoSuchEntry`.
    pub fn remove_entry(&mut self, index: usize) -> (r: Result<(), TodoError>)
        ensures
            index < old(self)@.len() ==> r == Ok::<(), TodoError>(())
                && final(self)@ == old(self)@.remove(index as int),
            index >= old(self)@.len() ==> r == Err::<(), TodoError>(TodoError::NoSuchEntry)
                && final(self)@ == old(self)@,
    {
        if self.entries.len() > index {
            self.entries.remove(index);
            Ok(())
        } else {
            Err(TodoError::NoSuchEntry)
        }
    }

    /// The persisted document for the current state: the canonical JSON
    /// text that `load` parses back.
    pub fn save(&self) -> (r: String)
        ensures
            r@ == codec::encode_doc(self@),
    {
        codec::encode_doc_str(&self.entries)
    }

    /// Builds a list from a stored document. `None` stands for a path
    /// with no stored document and yields the empty list; a document
    /// that is not well-formed is reported as a serialization error.
    pub fn load(doc: Option<&str>) -> (r: Result<TodoList, TodoError>)
        ensures
            doc is None ==> (r matches Ok(l) && l@ == Seq::<EntryView>::empty()),
            doc matches Some(text) ==> match codec::parse_doc(text@) {
                Some(es) => r matches Ok(l) && l@ == es,
                None => r == Err::<TodoList, TodoError>(TodoError::Serialization),
            },
    {
        match doc {
            None => Ok(TodoList::new()),
            Some(text) => match codec::parse_doc_str(text) {
                Some(v) => Ok(TodoList { entries: v }),
                None => Err(TodoError::Serialization),
            },
        }
    }
}

/// The state of a list after a sequence of `add_entry` calls, made from
/// `init`: each call appends one entry.
pub open spec fn apply_adds(init: Seq<EntryView>, adds: Seq<EntryView>) -> Seq<EntryView>
    decreases adds.len(),
{
    if adds.len() == 0 {
        init
    } else {
        apply_adds(init.push(adds[0]), adds.drop_first())
    }
}

/// For every sequence of `add_entry` calls, the entries afterwards are
/// the initial ones followed by the added ones, in the order they were
/// added; in particular, starting from the empty list the length equals
/// the number of calls.
pub proof fn lemma_adds_append(init: Seq<EntryView>, adds: Seq<EntryView>)
    ensures
        apply_adds(init, adds) == init + adds,
        apply_adds(init, adds).len() == init.len() + adds.len(),
    decreases adds.len(),
{
    if adds.len() == 0 {
        assert(init + adds =~= init);
    } else {
        lemma_adds_append(init.push(adds[0]), adds.drop_first());
        assert(init.push(adds[0]) + adds.drop_first() =~= init + adds);
    }
}

} // verus!
