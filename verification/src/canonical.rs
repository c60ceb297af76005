//! The canonical form of the notes of a beat: sorted, each note once.

use crate::note::Note;
use vstd::prelude::*;

verus! {

/// Each note precedes every later one: the notes are sorted and none occurs twice.
pub open spec fn strictly_ascending(notes: Seq<Note>) -> bool {
    forall|i: int, j: int| 0 <= i < j < notes.len() ==> notes[i].precedes(notes[j])
}

/// The two sequences hold the same notes, however often and in whatever order.
pub open spec fn same_notes(a: Seq<Note>, b: Seq<Note>) -> bool {
    forall|note: Note| a.contains(note) <==> b.contains(note)
}

/// `sorted` lists the notes of `notes` once each, in ascending order.
pub open spec fn is_canonical_of(sorted: Seq<Note>, notes: Seq<Note>) -> bool {
    strictly_ascending(sorted) && same_notes(sorted, notes)
}

/// The notes of `notes` once each, in ascending order.
pub open spec fn canonical(notes: Seq<Note>) -> Seq<Note> {
    choose|sorted: Seq<Note>| is_canonical_of(sorted, notes)
}

/// Where `note` belongs in an ascending sequence: behind the notes that precede it.
pub open spec fn insertion_point(sorted: Seq<Note>, note: Note) -> int
    decreases sorted.len(),
{
    if sorted.len() == 0 {
        0
    } else if sorted.last().precedes(note) {
        sorted.len() as int
    } else {
        insertion_point(sorted.drop_last(), note)
    }
}

/// In an ascending sequence the notes before the insertion point precede `note`
/// and those from it on do not.
pub proof fn lemma_insertion_point(sorted: Seq<Note>, note: Note)
    requires
        strictly_ascending(sorted),
    ensures
        0 <= insertion_point(sorted, note) <= sorted.len(),
        forall|i: int| 0 <= i < insertion_point(sorted, note) ==> (#[trigger] sorted[i]).precedes(note),
        forall|i: int|
            insertion_point(sorted, note) <= i < sorted.len() ==> !(#[trigger] sorted[i]).precedes(
                note,
            ),
    decreases sorted.len(),
{
    if sorted.len() > 0 && !sorted.last().precedes(note) {
        let front = sorted.drop_last();
        assert(strictly_ascending(front));
        lemma_insertion_point(front, note);
        assert forall|i: int| 0 <= i < insertion_point(sorted, note) implies (
        #[trigger] sorted[i]).precedes(note) by {
            assert(sorted[i] == front[i]);
        }
        assert forall|i: int| insertion_point(sorted, note) <= i < sorted.len() implies !(
        #[trigger] sorted[i]).precedes(note) by {
            if i < front.len() {
                assert(sorted[i] == front[i]);
            }
        }
    } else if sorted.len() > 0 {
        assert forall|i: int| 0 <= i < sorted.len() implies (#[trigger] sorted[i]).precedes(
            note,
        ) by {
            if i < sorted.len() - 1 {
                assert(sorted[i].precedes(sorted[sorted.len() - 1]));
            }
        }
    }
}

/// Putting a note that an ascending sequence lacks at its place keeps the
/// sequence ascending and adds that note alone.
pub proof fn lemma_insert_keeps_order(sorted: Seq<Note>, at: int, note: Note)
    requires
        strictly_ascending(sorted),
        0 <= at <= sorted.len(),
        forall|i: int| 0 <= i < at ==> (#[trigger] sorted[i]).precedes(note),
        forall|i: int| at <= i < sorted.len() ==> note.precedes(#[trigger] sorted[i]),
    ensures
        strictly_ascending(sorted.insert(at, note)),
        forall|other: Note|
            #[trigger] sorted.insert(at, note).contains(other) <==> (sorted.contains(other)
                || other == note),
{
    let grown = sorted.insert(at, note);
    assert(strictly_ascending(grown));
    assert forall|other: Note| #[trigger] grown.contains(other) <==> (sorted.contains(other)
        || other == note) by {
        if sorted.contains(other) {
            let k = choose|k: int| 0 <= k < sorted.len() && sorted[k] == other;
            if k < at {
                assert(grown[k] == other);
            } else {
                assert(grown[k + 1] == other);
            }
        }
        if other == note {
            assert(grown[at] == other);
        }
    }
}

/// An ascending sequence is fixed by the notes it holds.
pub proof fn lemma_canonical_unique(a: Seq<Note>, b: Seq<Note>)
    requires
        strictly_ascending(a),
        strictly_ascending(b),
        same_notes(a, b),
    ensures
        a == b,
    decreases a.len(),
{
    if a.len() == 0 {
        if b.len() > 0 {
            assert(a.contains(b[0]));
        }
    } else {
        let top = a.last();
        assert(b.contains(top));
        let at = choose|k: int| 0 <= k < b.len() && b[k] == top;
        assert(a.contains(b.last()));
        let back = choose|k: int| 0 <= k < a.len() && a[k] == b.last();
        if back < a.len() - 1 {
            assert(a[back].precedes(a[a.len() - 1]));
        }
        if at < b.len() - 1 {
            assert(b[at].precedes(b[b.len() - 1]));
        }
        let a_front = a.drop_last();
        let b_front = b.drop_last();
        assert forall|note: Note| a_front.contains(note) <==> b_front.contains(note) by {
            if a_front.contains(note) {
                let k = choose|k: int| 0 <= k < a_front.len() && a_front[k] == note;
                assert(a[k].precedes(a[a.len() - 1]));
                assert(b.contains(note));
                let m = choose|m: int| 0 <= m < b.len() && b[m] == note;
                assert(b_front[m] == note);
            }
            if b_front.contains(note) {
                let k = choose|k: int| 0 <= k < b_front.len() && b_front[k] == note;
                assert(b[k].precedes(b[b.len() - 1]));
                assert(a.contains(note));
                let m = choose|m: int| 0 <= m < a.len() && a[m] == note;
                assert(a_front[m] == note);
            }
        }
        assert(strictly_ascending(a_front) && strictly_ascending(b_front));
        lemma_canonical_unique(a_front, b_front);
        assert(b =~= b_front.push(top));
    }
}

/// Whatever the notes of a beat and however often each was struck, their
/// canonical form is sorted ascending by octave and pitch class, holds no note
/// twice, and holds exactly the notes that were struck.
pub proof fn lemma_canonical_sorted_unique(notes: Seq<Note>)
    ensures
        is_canonical_of(canonical(notes), notes),
        forall|i: int, j: int|
            0 <= i < j < canonical(notes).len() ==> canonical(notes)[i] != canonical(notes)[j],
    decreases notes.len(),
{
    if notes.len() == 0 {
        let none = Seq::<Note>::empty();
        assert(is_canonical_of(none, notes));
    } else {
        let front = notes.drop_last();
        let last = notes.last();
        lemma_canonical_sorted_unique(front);
        let sorted = canonical(front);
        assert forall|note: Note| #[trigger] notes.contains(note) <==> (front.contains(note)
            || note == last) by {
            if notes.contains(note) {
                let k = choose|k: int| 0 <= k < notes.len() && notes[k] == note;
                if k < front.len() {
                    assert(front[k] == note);
                }
            }
        }
        if sorted.contains(last) {
            assert(is_canonical_of(sorted, notes));
        } else {
            lemma_insertion_point(sorted, last);
            let at = insertion_point(sorted, last);
            assert forall|i: int| at <= i < sorted.len() implies last.precedes(
                #[trigger] sorted[i],
            ) by {
                assert(sorted.contains(sorted[i]));
            }
            lemma_insert_keeps_order(sorted, at, last);
            assert(is_canonical_of(sorted.insert(at, last), notes));
        }
    }
    let result = canonical(notes);
    assert forall|i: int, j: int| 0 <= i < j < result.len() implies result[i] != result[j] by {
        assert(result[i].precedes(result[j]));
    }
}

/// Notes that are sorted with none twice are their own canonical form, so
/// taking the canonical form twice changes nothing more.
pub proof fn lemma_canonical_idempotent(notes: Seq<Note>)
    ensures
        strictly_ascending(notes) ==> canonical(notes) == notes,
        canonical(canonical(notes)) == canonical(notes),
{
    lemma_canonical_sorted_unique(notes);
    lemma_canonical_sorted_unique(canonical(notes));
    lemma_canonical_unique(canonical(canonical(notes)), canonical(notes));
    if strictly_ascending(notes) {
        lemma_canonical_unique(canonical(notes), notes);
    }
}

/// Lists the notes once each in ascending order, by octave and then by pitch
/// class.
pub fn sorted_unique(notes: &Vec<Note>) -> (sorted: Vec<Note>)
    ensures
        sorted@ == canonical(notes@),
        strictly_ascending(sorted@),
        same_notes(sorted@, notes@),
{
    let mut sorted: Vec<Note> = Vec::new();
    let mut done: usize = 0;
    while done < notes.len()
        invariant
            done <= notes.len(),
            is_canonical_of(sorted@, notes@.take(done as int)),
        decreases notes.len() - done,
    {
        let note = notes[done];
        let mut at: usize = 0;
        while at < sorted.len() && sorted[at] < note
            invariant
                at <= sorted.len(),
                forall|i: int| 0 <= i < at ==> (#[trigger] sorted@[i]).precedes(note),
            decreases sorted.len() - at,
        {
            at += 1;
        }
        let ghost before = sorted@;
        let ghost seen = notes@.take(done as int);
        let ghost grown = notes@.take(done + 1);
        proof {
            assert forall|other: Note| #[trigger] grown.contains(other) <==> (seen.contains(other)
                || other == note) by {
                if grown.contains(other) {
                    let k = choose|k: int| 0 <= k < grown.len() && grown[k] == other;
                    if k < seen.len() {
                        assert(seen[k] == other);
                    }
                }
                if other == note {
                    assert(grown[grown.len() - 1] == other);
                }
            }
        }
        if at < sorted.len() && sorted[at] == note {
            assert(before.contains(note));
        } else {
            proof {
                assert forall|i: int| at <= i < before.len() implies note.precedes(
                    #[trigger] before[i],
                ) by {
                    if i > at {
                        assert(before[at as int].precedes(before[i]));
                    }
                }
            }
            sorted.insert(at, note);
            proof {
                lemma_insert_keeps_order(before, at as int, note);
                assert(same_notes(sorted@, grown));
            }
        }
        done += 1;
    }
    proof {
        assert(notes@.take(done as int) =~= notes@);
        lemma_canonical_sorted_unique(notes@);
        lemma_canonical_unique(sorted@, canonical(notes@));
    }
    sorted
}

} // verus!
