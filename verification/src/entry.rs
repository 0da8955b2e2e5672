//! The records that a scan works with and produces.

use vstd::prelude::*;

verus! {

/// A named byte signature to look for.
#[derive(Clone, Debug, PartialEq, Eq)]
pub struct Pattern {
    pub name: String,
    pub bytes: Vec<u8>,
}

/// One located finding: a signature match or a run of printable text.
#[derive(Clone, Debug, PartialEq, Eq)]
pub struct ResultEntry {
    /// Human readable label.
    pub content: String,
    /// Offset of the first matched byte, counted from the start of the dump.
    pub address: usize,
    /// The bytes that were matched.
    pub bytes: Vec<u8>,
}

/// Mathematical value of a [`ResultEntry`].
pub struct EntryView {
    pub content: Seq<char>,
    pub address: int,
    pub bytes: Seq<u8>,
}

impl View for ResultEntry {
    type V = EntryView;

    open spec fn view(&self) -> EntryView {
        EntryView { content: self.content@, address: self.address as int, bytes: self.bytes@ }
    }
}

/// The values of a sequence of entries, position by position.
pub open spec fn entries_view(v: Seq<ResultEntry>) -> Seq<EntryView> {
    Seq::new(v.len(), |i: int| v[i]@)
}

/// Totals of a finished scan.
#[derive(Clone, Copy, Debug, PartialEq, Eq)]
pub struct Summary {
    pub total_entries: usize,
    pub total_patterns: usize,
    pub total_ascii_strings: usize,
}

/// Pushing an entry extends the view by that entry's value.
pub proof fn lemma_entries_view_push(v: Seq<ResultEntry>, e: ResultEntry)
    ensures
        entries_view(v.push(e)) == entries_view(v).push(e@),
{
    assert(entries_view(v.push(e)) =~= entries_view(v).push(e@));
}

/// The view of a concatenation is the concatenation of the views.
pub proof fn lemma_entries_view_concat(a: Seq<ResultEntry>, b: Seq<ResultEntry>)
    ensures
        entries_view(a + b) == entries_view(a) + entries_view(b),
{
    assert(entries_view(a + b) =~= entries_view(a) + entries_view(b));
}

} // verus!
