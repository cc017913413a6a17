//! The decision logic that binds the envelope to the note store: the
//! four intents (create, list, read, delete) over an in-memory
//! collection.  Loading and saving the persisted text, and all I/O,
//! stay with the caller.

use crate::envelope::{decrypt_note, encrypt_note, note_decryptable, note_opens_to, storable};
use crate::store::{Note, NoteView};
use vstd::prelude::*;

verus! {

/// A stored note is decryptable under a key when its body opens to some
/// plaintext.
pub open spec fn decryptable(key: Seq<u8>, n: NoteView) -> bool {
    note_decryptable(key, n.content, n.nonce)
}

/// The titles of the decryptable notes, in storage order.
pub open spec fn decryptable_titles(ns: Seq<NoteView>, key: Seq<u8>) -> Seq<Seq<char>>
    decreases ns.len(),
{
    if ns.len() == 0 {
        Seq::empty()
    } else {
        let rest = decryptable_titles(ns.drop_last(), key);
        if decryptable(key, ns.last()) {
            rest.push(ns.last().title)
        } else {
            rest
        }
    }
}

/// What remains after deleting a title: matching notes go exactly when
/// they decrypt, everything else stays, order preserved.
pub open spec fn after_delete(ns: Seq<NoteView>, t: Seq<char>, key: Seq<u8>) -> Seq<NoteView>
    decreases ns.len(),
{
    if ns.len() == 0 {
        Seq::empty()
    } else {
        let rest = after_delete(ns.drop_last(), t, key);
        if ns.last().title == t && decryptable(key, ns.last()) {
            rest
        } else {
            rest.push(ns.last())
        }
    }
}

/// One outcome per note whose title matched, in storage order: whether
/// it decrypted and so was removed.
pub open spec fn delete_report(ns: Seq<NoteView>, t: Seq<char>, key: Seq<u8>) -> Seq<bool>
    decreases ns.len(),
{
    if ns.len() == 0 {
        Seq::empty()
    } else {
        let rest = delete_report(ns.drop_last(), t, key);
        if ns.last().title == t {
            rest.push(decryptable(key, ns.last()))
        } else {
            rest
        }
    }
}

/// The position of the first note carrying this title, or -1.
pub open spec fn find_title(ns: Seq<NoteView>, t: Seq<char>) -> int
    decreases ns.len(),
{
    if ns.len() == 0 {
        -1
    } else if ns[0].title == t {
        0
    } else {
        let r = find_title(ns.skip(1), t);
        if r < 0 {
            -1
        } else {
            r + 1
        }
    }
}

proof fn lemma_find_title_prefix(ns: Seq<NoteView>, t: Seq<char>, i: int)
    requires
        0 <= i <= ns.len(),
        forall|k: int| 0 <= k < i ==> ns[k].title != t,
    ensures
        i == ns.len() ==> find_title(ns, t) == -1,
        i < ns.len() && ns[i].title == t ==> find_title(ns, t) == i,
    decreases ns.len(),
{
    if ns.len() == 0 {
    } else if i == 0 {
        if ns[0].title != t {
            // nothing owed: neither conclusion's premise can be used here
        }
    } else {
        assert(ns[0].title != t);
        lemma_find_title_prefix(ns.skip(1), t, i - 1);
    }
}

/// Character-for-character string comparison.
fn str_eq(a: &str, b: &str) -> (r: bool)
    ensures
        r == (a@ == b@),
{
    let n = a.unicode_len();
    let m = b.unicode_len();
    if n != m {
        return false;
    }
    let mut k: usize = 0;
    while k < n
        invariant
            k <= n,
            n == a@.len(),
            n == b@.len(),
            forall|p: int| 0 <= p < k ==> a@[p] == b@[p],
        decreases n - k,
    {
        if a.get_char(k) != b.get_char(k) {
            return false;
        }
        k += 1;
    }
    proof {
        assert(a@ =~= b@);
    }
    true
}

fn clone_note(n: &Note) -> (r: Note)
    ensures
        r@ == n@,
{
    Note { title: n.title.clone(), content: n.content.clone(), nonce: n.nonce.clone() }
}

/// Create: encrypt the content under the working key and append the new
/// record to the collection.
pub fn create_note(notes: &mut Vec<Note>, title: String, plaintext: &[u8], key: &[u8])
    requires
        key@.len() == 32,
        storable(plaintext@),
    ensures
        ({
            let dv = final(notes).deep_view();
            dv.len() == old(notes).deep_view().len() + 1 && dv == old(notes).deep_view().push(
                dv.last(),
            ) && dv.last().title == title@ && note_opens_to(
                key@,
                dv.last().content,
                dv.last().nonce,
                plaintext@,
            )
        }),
{
    let (content, nonce_text) = encrypt_note(plaintext, key);
    let ghost dv0 = notes.deep_view();
    let note = Note { title, content, nonce: nonce_text };
    let ghost nv = note@;
    notes.push(note);
    proof {
        assert(notes.deep_view() =~= dv0.push(nv));
    }
}

/// List: the titles of exactly those notes that decrypt under the
/// working key, in storage order.
pub fn list_titles(notes: &Vec<Note>, key: &[u8]) -> (r: Vec<String>)
    requires
        key@.len() == 32,
    ensures
        r.deep_view() == decryptable_titles(notes.deep_view(), key@),
{
    let ghost dv = notes.deep_view();
    let mut out: Vec<String> = Vec::new();
    proof {
        assert(dv.take(0) =~= Seq::<NoteView>::empty());
        assert(out.deep_view() =~= decryptable_titles(dv.take(0), key@));
    }
    let n = notes.len();
    let mut i: usize = 0;
    while i < n
        invariant
            i <= n,
            n == notes@.len(),
            key@.len() == 32,
            dv == notes.deep_view(),
            out.deep_view() == decryptable_titles(dv.take(i as int), key@),
        decreases n - i,
    {
        let note = &notes[i];
        proof {
            assert(dv[i as int] == notes@[i as int]@);
        }
        let ghost out0 = out.deep_view();
        if decrypt_note(note.content.as_str(), note.nonce.as_str(), key).is_some() {
            out.push(note.title.clone());
            proof {
                assert(out.deep_view() =~= out0.push(dv[i as int].title));
            }
        }
        proof {
            assert(dv.take(i as int + 1).drop_last() =~= dv.take(i as int));
            assert(dv.take(i as int + 1).last() == dv[i as int]);
        }
        i += 1;
    }
    proof {
        assert(dv.take(n as int) =~= dv);
    }
    out
}

/// What reading one title can come to.
pub enum ReadOutcome {
    /// No note carries the title.
    Missing,
    /// The first note carrying the title does not decrypt under this
    /// key.
    DecryptFailed,
    /// The first note carrying the title decrypts to this content.
    Plaintext(Vec<u8>),
}

/// Read: find the first note with the given title and try to decrypt
/// it.  Later notes with the same title are not consulted.
pub fn read_note(notes: &Vec<Note>, title: &str, key: &[u8]) -> (r: ReadOutcome)
    requires
        key@.len() == 32,
    ensures
        ({
            let dv = notes.deep_view();
            let ix = find_title(dv, title@);
            match r {
                ReadOutcome::Missing => ix == -1,
                ReadOutcome::DecryptFailed => ix >= 0 && !decryptable(key@, dv[ix]),
                ReadOutcome::Plaintext(p) => ix >= 0 && note_opens_to(
                    key@,
                    dv[ix].content,
                    dv[ix].nonce,
                    p@,
                ) && (forall|q: Seq<u8>|
                    note_opens_to(key@, dv[ix].content, dv[ix].nonce, q) ==> q == p@),
            }
        }),
{
    let ghost dv = notes.deep_view();
    let n = notes.len();
    let mut i: usize = 0;
    while i < n
        invariant
            i <= n,
            n == notes@.len(),
            key@.len() == 32,
            dv == notes.deep_view(),
            forall|k: int| 0 <= k < i ==> dv[k].title != title@,
        decreases n - i,
    {
        let note = &notes[i];
        proof {
            assert(dv[i as int] == notes@[i as int]@);
        }
        if str_eq(note.title.as_str(), title) {
            proof {
                lemma_find_title_prefix(dv, title@, i as int);
            }
            return match decrypt_note(note.content.as_str(), note.nonce.as_str(), key) {
                Some(p) => ReadOutcome::Plaintext(p),
                None => ReadOutcome::DecryptFailed,
            };
        }
        i += 1;
    }
    proof {
        lemma_find_title_prefix(dv, title@, n as int);
    }
    ReadOutcome::Missing
}

/// Delete: every note carrying the title is removed exactly when it
/// decrypts under the working key; all other notes stay, in order.  The
/// result reports, per matching note in storage order, whether it was
/// removed.
pub fn delete_notes(notes: &mut Vec<Note>, title: &str, key: &[u8]) -> (r: Vec<bool>)
    requires
        key@.len() == 32,
    ensures
        final(notes).deep_view() == after_delete(old(notes).deep_view(), title@, key@),
        r@ == delete_report(old(notes).deep_view(), title@, key@),
{
    let ghost dv = notes.deep_view();
    let mut kept: Vec<Note> = Vec::new();
    let mut report: Vec<bool> = Vec::new();
    proof {
        assert(dv.take(0) =~= Seq::<NoteView>::empty());
        assert(kept.deep_view() =~= after_delete(dv.take(0), title@, key@));
        assert(report@ =~= delete_report(dv.take(0), title@, key@));
    }
    let n = notes.len();
    let mut i: usize = 0;
    while i < n
        invariant
            i <= n,
            n == notes@.len(),
            key@.len() == 32,
            dv == notes.deep_view(),
            kept.deep_view() == after_delete(dv.take(i as int), title@, key@),
            report@ == delete_report(dv.take(i as int), title@, key@),
        decreases n - i,
    {
        let note = &notes[i];
        proof {
            assert(dv[i as int] == notes@[i as int]@);
        }
        let ghost kept0 = kept.deep_view();
        if str_eq(note.title.as_str(), title) {
            let removed = decrypt_note(note.content.as_str(), note.nonce.as_str(), key).is_some();
            report.push(removed);
            if !removed {
                kept.push(clone_note(note));
                proof {
                    assert(kept.deep_view() =~= kept0.push(dv[i as int]));
                }
            }
        } else {
            kept.push(clone_note(note));
            proof {
                assert(kept.deep_view() =~= kept0.push(dv[i as int]));
            }
        }
        proof {
            assert(dv.take(i as int + 1).drop_last() =~= dv.take(i as int));
            assert(dv.take(i as int + 1).last() == dv[i as int]);
        }
        i += 1;
    }
    proof {
        assert(dv.take(n as int) =~= dv);
    }
    *notes = kept;
    report
}

} // verus!
