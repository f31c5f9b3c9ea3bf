use vstd::prelude::*;
use vstd::string::StringExecFns;

use crate::codec::collection_text;
use crate::codec::parse_collection;
use crate::codec::parse_notes;
use crate::codec::lemma_round_trip;
use crate::codec::serialize_notes;
use crate::note::Note;
use crate::note::NoteView;
use crate::note::all_in_range;
use crate::note::views_of;

verus! {

/// The one failure loading can signal from the text itself: the persisted
/// text does not hold a well-formed collection.
#[derive(Debug)]
pub enum LoadError {
    Malformed,
}

impl LoadError {
    /// The error's message: the fixed context phrase, a separator, and the
    /// cause — why the store refused the text. The store's parser has one
    /// failure mode at this boundary, so the cause names it.
    pub fn message(&self) -> (r: String)
        ensures
            r@
                == "Failed to parse notes file: the text does not hold a well-formed note collection"@,
    {
        String::from_str(
            "Failed to parse notes file: the text does not hold a well-formed note collection",
        )
    }
}

/// The model of the file handed to an operation: the text when the file
/// exists, nothing when it does not.
pub open spec fn contents_view(c: Option<&str>) -> Option<Seq<char>> {
    match c {
        Some(s) => Some(s@),
        None => None,
    }
}

/// The collection a save starts from: the parse of the file when it
/// parses, and the empty collection when there is no file or its text is
/// malformed (a malformed file is deliberately discarded on save).
pub open spec fn base_collection(contents: Option<Seq<char>>) -> Seq<NoteView> {
    match contents {
        Some(s) => match parse_collection(s) {
            Some(ns) => ns,
            None => Seq::empty(),
        },
        None => Seq::empty(),
    }
}

/// Load the collection from the file's text. A missing file is the empty
/// collection, not an error; text that does not parse is an error.
pub fn load_notes(contents: Option<&str>) -> (r: Result<Vec<Note>, LoadError>)
    ensures
        match contents {
            None => r matches Ok(ns) && views_of(ns@) == Seq::<NoteView>::empty(),
            Some(s) => match r {
                Ok(ns) => parse_collection(s@) == Some(views_of(ns@)),
                Err(_) => parse_collection(s@) is None,
            },
        },
{
    match contents {
        None => {
            let ns: Vec<Note> = Vec::new();
            proof {
                assert(views_of(ns@) =~= Seq::<NoteView>::empty());
            }
            Ok(ns)
        },
        Some(s) => match parse_notes(s) {
            Some(ns) => Ok(ns),
            None => Err(LoadError::Malformed),
        },
    }
}

/// The read-modify-write core of a save, with the identifier and the
/// clock reading passed in: parse the prior text (or start empty when it
/// is absent or malformed), append the one new note, and serialize the
/// whole collection. The result both is the exact serialized text and
/// parses back to the prior collection plus exactly the new entry.
pub fn write_with_note(
    contents: Option<&str>,
    title: &str,
    content: &str,
    id: &str,
    timestamp: i64,
) -> (r: String)
    ensures
        r@ == collection_text(
            base_collection(contents_view(contents)).push(
                NoteView { id: id@, title: title@, content: content@, timestamp: timestamp as int },
            ),
        ),
        parse_collection(r@) == Some(
            base_collection(contents_view(contents)).push(
                NoteView { id: id@, title: title@, content: content@, timestamp: timestamp as int },
            ),
        ),
{
    let ghost base = base_collection(contents_view(contents));
    let mut notes: Vec<Note> = match contents {
        Some(s) => match parse_notes(s) {
            Some(ns) => ns,
            None => Vec::new(),
        },
        None => Vec::new(),
    };
    proof {
        assert(views_of(Seq::<Note>::empty()) =~= Seq::<NoteView>::empty());
        assert(views_of(notes@) == base);
    }
    let note = Note {
        id: String::from_str(id),
        title: String::from_str(title),
        content: String::from_str(content),
        timestamp,
    };
    let ghost nv = note@;
    notes.push(note);
    proof {
        assert(views_of(notes@) =~= base.push(nv));
    }
    let out = serialize_notes(&notes);
    proof {
        assert(all_in_range(views_of(notes@))) by {
            assert(forall|i: int|
                0 <= i < notes@.len() ==> (#[trigger] views_of(notes@)[i]).timestamp == notes@[i].timestamp as int);
        }
        lemma_round_trip(views_of(notes@));
    }
    out
}

/// A run of saves in strict sequence, stated as one law. `save_note`
/// ensures of each step that the new text parses to the prior collection
/// plus that step's one note; so along any chain of collections that
/// starts empty (no file yet) and grows by one saved note per step, the
/// final collection is exactly the saved notes, in call order, oldest
/// first — each entry carrying the title, content, identifier and
/// timestamp of its save.
pub proof fn lemma_sequential_saves(collections: Seq<Seq<NoteView>>, saved: Seq<NoteView>)
    requires
        collections.len() == saved.len() + 1,
        collections[0] == Seq::<NoteView>::empty(),
        forall|i: int|
            0 <= i < saved.len() ==> #[trigger] collections[i + 1] == collections[i].push(
                saved[i],
            ),
    ensures
        collections[saved.len() as int] == saved,
    decreases saved.len(),
{
    if saved.len() == 0 {
        assert(collections[0] =~= saved);
    } else {
        let n = saved.len() as int;
        assert forall|i: int| 0 <= i < n - 1 implies #[trigger] collections.take(n)[i + 1]
            == collections.take(n)[i].push(saved.take(n - 1)[i]) by {
            assert(collections.take(n)[i + 1] == collections[i + 1]);
            assert(collections.take(n)[i] == collections[i]);
            assert(saved.take(n - 1)[i] == saved[i]);
        }
        lemma_sequential_saves(collections.take(n), saved.take(n - 1));
        assert(collections.take(n)[n - 1] == collections[n - 1]);
        assert(collections[n] == collections[n - 1].push(saved[n - 1]));
        assert(saved.take(n - 1).push(saved[n - 1]) =~= saved);
    }
}

/// What one completed save hands back: the new text of the file, the
/// fresh identifier, and the clock reading stored in the new note.
pub struct SavedNote {
    pub contents: String,
    pub id: String,
    pub timestamp: i64,
}

/// Relies on uuid's Uuid::new_v4 together with its hyphenated Display
/// form: the text of a fresh random version-4 identifier is 36 characters,
/// a hyphen at the four fixed places and a lower-case hexadecimal digit
/// everywhere else. Nothing is assumed about which identifier comes out.
#[verifier::external_body]
fn fresh_id() -> (r: String)
    ensures
        r@.len() == 36,
        forall|i: int|
            0 <= i < 36 ==> if i == 8 || i == 13 || i == 18 || i == 23 {
                (#[trigger] r@[i]) == '-'
            } else {
                ('0' <= r@[i] && r@[i] <= '9') || ('a' <= r@[i] && r@[i] <= 'f')
            },
{
    uuid::Uuid::new_v4().to_string()
}

/// Relies on chrono's Utc::now and DateTime::timestamp: the wall clock
/// now, in whole seconds since the Unix epoch. Every value it returns is
/// non-negative (chrono builds the current time from a duration since the
/// epoch and does not return at all on a clock standing before it).
#[verifier::external_body]
fn current_timestamp() -> (r: i64)
    ensures
        r >= 0,
{
    chrono::Utc::now().timestamp()
}

/// One whole save: generate a fresh identifier, read the clock, and
/// produce the text to write back. The new text holds the prior
/// collection (empty when the file was absent or malformed) plus exactly
/// one new note carrying the returned identifier and clock reading, and
/// it parses back to just that.
pub fn save_note(contents: Option<&str>, title: &str, content: &str) -> (r: SavedNote)
    ensures
        r.contents@ == collection_text(
            base_collection(contents_view(contents)).push(
                NoteView {
                    id: r.id@,
                    title: title@,
                    content: content@,
                    timestamp: r.timestamp as int,
                },
            ),
        ),
        parse_collection(r.contents@) == Some(
            base_collection(contents_view(contents)).push(
                NoteView {
                    id: r.id@,
                    title: title@,
                    content: content@,
                    timestamp: r.timestamp as int,
                },
            ),
        ),
        r.id@.len() == 36,
        forall|i: int|
            0 <= i < 36 ==> if i == 8 || i == 13 || i == 18 || i == 23 {
                (#[trigger] r.id@[i]) == '-'
            } else {
                ('0' <= r.id@[i] && r.id@[i] <= '9') || ('a' <= r.id@[i] && r.id@[i] <= 'f')
            },
        r.timestamp >= 0,
{
    let id = fresh_id();
    let timestamp = current_timestamp();
    let contents2 = write_with_note(contents, title, content, id.as_str(), timestamp);
    SavedNote { contents: contents2, id, timestamp }
}

} // verus!
