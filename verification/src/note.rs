use vstd::prelude::*;

verus! {

/// One persisted note: a stable identifier, the user's title and content,
/// and the creation time in whole seconds since the Unix epoch.
#[derive(Debug, Clone)]
pub struct Note {
    pub id: String,
    pub title: String,
    pub content: String,
    pub timestamp: i64,
}

/// The mathematical model of a note: the three text fields as character
/// sequences and the timestamp as an unbounded integer.
pub struct NoteView {
    pub id: Seq<char>,
    pub title: Seq<char>,
    pub content: Seq<char>,
    pub timestamp: int,
}

impl View for Note {
    type V = NoteView;

    open spec fn view(&self) -> NoteView {
        NoteView {
            id: self.id@,
            title: self.title@,
            content: self.content@,
            timestamp: self.timestamp as int,
        }
    }
}

/// A note model whose timestamp fits the machine representation.
pub open spec fn note_in_range(n: NoteView) -> bool {
    i64::MIN <= n.timestamp <= i64::MAX
}

pub open spec fn all_in_range(ns: Seq<NoteView>) -> bool {
    forall|i: int| 0 <= i < ns.len() ==> note_in_range(#[trigger] ns[i])
}

/// The collection invariant: no two notes share an identifier.
pub open spec fn unique_ids(ns: Seq<NoteView>) -> bool {
    forall|i: int, j: int| 0 <= i < j < ns.len() ==> (#[trigger] ns[i]).id != (#[trigger] ns[j]).id
}

/// The models of the notes held in a vector, in order.
pub open spec fn views_of(notes: Seq<Note>) -> Seq<NoteView> {
    notes.map(|i: int, n: Note| n@)
}

/// Appending a note whose identifier differs from every existing one
/// keeps the collection's identifiers unique.
pub proof fn lemma_append_preserves_unique_ids(ns: Seq<NoteView>, n: NoteView)
    requires
        unique_ids(ns),
        forall|i: int| 0 <= i < ns.len() ==> (#[trigger] ns[i]).id != n.id,
    ensures
        unique_ids(ns.push(n)),
{
    let p = ns.push(n);
    assert forall|i: int, j: int| 0 <= i < j < p.len() implies (#[trigger] p[i]).id != (
    #[trigger] p[j]).id by {
        if j < ns.len() {
            assert(p[i] == ns[i] && p[j] == ns[j]);
        } else {
            assert(p[j] == n && p[i] == ns[i]);
        }
    }
}

} // verus!
