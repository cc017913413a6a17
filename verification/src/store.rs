//! The note store's data model and its persisted text format.
//!
//! A collection of notes is persisted as a compact, JSON-shaped array
//! of objects, each with three string fields: `title`, `content`
//! (base64 ciphertext) and `nonce` (base64).  Only quotes and
//! backslashes are escaped, so a title holding control characters
//! yields a text that strict JSON readers may refuse; the parser below
//! is the format's one reader.  Serializer and parser are verified
//! against a common specification, and `lemma_store_roundtrip` proves
//! that parsing a serialized collection gives the collection back.

use vstd::prelude::*;

verus! {

/// One persisted note record.  `content` and `nonce` hold the base64
/// encodings that `envelope::encrypt_note` produced; the title is plain
/// text and need not be unique.
pub struct Note {
    pub title: String,
    pub content: String,
    pub nonce: String,
}

/// The mathematical model of a note: its three fields as character
/// sequences.
pub ghost struct NoteView {
    pub title: Seq<char>,
    pub content: Seq<char>,
    pub nonce: Seq<char>,
}

impl View for Note {
    type V = NoteView;

    open spec fn view(&self) -> NoteView {
        NoteView { title: self.title@, content: self.content@, nonce: self.nonce@ }
    }
}

impl DeepView for Note {
    type V = NoteView;

    open spec fn deep_view(&self) -> NoteView {
        self.view()
    }
}

/// How one character is written inside a JSON string literal: quotes and
/// backslashes take a leading backslash, every other character stands as
/// itself.
pub open spec fn esc_char(c: char) -> Seq<char> {
    if c == '"' || c == '\\' {
        seq!['\\', c]
    } else {
        seq![c]
    }
}

/// The escaped form of a whole text.
pub open spec fn esc_text(s: Seq<char>) -> Seq<char>
    decreases s.len(),
{
    if s.len() == 0 {
        Seq::empty()
    } else {
        esc_char(s[0]) + esc_text(s.skip(1))
    }
}

/// The opening of a serialized record, up to the title's value.
pub open spec fn lit_open() -> Seq<char> {
    seq!['{', '"', 't', 'i', 't', 'l', 'e', '"', ':', '"']
}

/// What stands between the title's closing quote and the content's
/// value.
pub open spec fn lit_mid_content() -> Seq<char> {
    seq![',', '"', 'c', 'o', 'n', 't', 'e', 'n', 't', '"', ':', '"']
}

/// What stands between the content's closing quote and the nonce's
/// value.
pub open spec fn lit_mid_nonce() -> Seq<char> {
    seq![',', '"', 'n', 'o', 'n', 'c', 'e', '"', ':', '"']
}

/// The serialized form of one record.
pub open spec fn ser_note(n: NoteView) -> Seq<char> {
    lit_open() + esc_text(n.title) + seq!['"'] + lit_mid_content() + esc_text(n.content)
        + seq!['"'] + lit_mid_nonce() + esc_text(n.nonce) + seq!['"', '}']
}

/// The serialized records, comma-separated.
pub open spec fn ser_list(ns: Seq<NoteView>) -> Seq<char>
    decreases ns.len(),
{
    if ns.len() == 0 {
        Seq::empty()
    } else if ns.len() == 1 {
        ser_note(ns[0])
    } else {
        ser_note(ns[0]) + seq![','] + ser_list(ns.skip(1))
    }
}

/// The serialized form of a whole collection: the records between
/// brackets.
pub open spec fn ser_notes(ns: Seq<NoteView>) -> Seq<char> {
    seq!['['] + ser_list(ns) + seq![']']
}

/// Escaping distributes over appending one character.
proof fn lemma_esc_snoc(s: Seq<char>, c: char)
    ensures
        esc_text(s.push(c)) == esc_text(s) + esc_char(c),
    decreases s.len(),
{
    if s.len() == 0 {
        assert(s.push(c).skip(1) =~= Seq::<char>::empty());
        assert(s.push(c)[0] == c);
        assert(esc_text(Seq::<char>::empty()) =~= Seq::<char>::empty());
        assert(esc_text(s.push(c)) =~= esc_text(s) + esc_char(c));
    } else {
        assert(s.push(c).skip(1) =~= s.skip(1).push(c));
        lemma_esc_snoc(s.skip(1), c);
        assert(s.push(c)[0] == s[0]);
        assert(esc_text(s.push(c)) == esc_char(s[0]) + (esc_text(s.skip(1)) + esc_char(c)));
        assert(esc_text(s) == esc_char(s[0]) + esc_text(s.skip(1)));
        assert(esc_text(s.push(c)) =~= esc_text(s) + esc_char(c));
    }
}

/// Appending a record to a non-empty list appends a comma and the
/// record's serialization.
proof fn lemma_ser_list_snoc(ns: Seq<NoteView>, nv: NoteView)
    ensures
        ser_list(ns.push(nv)) == if ns.len() == 0 {
            ser_note(nv)
        } else {
            ser_list(ns) + seq![','] + ser_note(nv)
        },
    decreases ns.len(),
{
    if ns.len() == 0 {
        assert(ns.push(nv)[0] == nv);
    } else if ns.len() == 1 {
        assert(ns.push(nv).skip(1) =~= ns.skip(1).push(nv));
        assert(ns.skip(1).push(nv) =~= seq![nv]);
        assert(ns.push(nv)[0] == ns[0]);
        assert(ser_list(seq![nv]) == ser_note(nv));
        assert(ser_list(ns.push(nv)) =~= ser_list(ns) + seq![','] + ser_note(nv));
    } else {
        assert(ns.push(nv).skip(1) =~= ns.skip(1).push(nv));
        lemma_ser_list_snoc(ns.skip(1), nv);
        assert(ns.push(nv)[0] == ns[0]);
        assert(ser_list(ns.push(nv)) == ser_note(ns[0]) + seq![','] + (ser_list(ns.skip(1))
            + seq![','] + ser_note(nv)));
        assert(ser_list(ns) == ser_note(ns[0]) + seq![','] + ser_list(ns.skip(1)));
        assert(ser_list(ns.push(nv)) =~= ser_list(ns) + seq![','] + ser_note(nv));
    }
}

/// What a string literal of the format denotes, read from position `i`:
/// the text it escapes and the position after its closing quote.
pub open spec fn scan_string(s: Seq<char>, i: int) -> Option<(Seq<char>, int)>
    decreases s.len() - i,
{
    if i < 0 || i >= s.len() {
        None
    } else if s[i] == '"' {
        Some((Seq::empty(), i + 1))
    } else if s[i] == '\\' {
        if i + 1 < s.len() && (s[i + 1] == '"' || s[i + 1] == '\\') {
            match scan_string(s, i + 2) {
                Some((v, j)) => Some((seq![s[i + 1]] + v, j)),
                None => None,
            }
        } else {
            None
        }
    } else {
        match scan_string(s, i + 1) {
            Some((v, j)) => Some((seq![s[i]] + v, j)),
            None => None,
        }
    }
}

/// The fixed text `lit` stands in `s` at position `i`.
pub open spec fn lit_at(s: Seq<char>, i: int, lit: Seq<char>) -> bool {
    0 <= i && i + lit.len() <= s.len() && s.subrange(i, i + lit.len()) == lit
}

/// What one record of the format denotes, read from position `i`: the
/// record and the position after its closing brace.
pub open spec fn scan_entry(s: Seq<char>, i: int) -> Option<(NoteView, int)> {
    if !lit_at(s, i, lit_open()) {
        None
    } else {
        match scan_string(s, i + lit_open().len()) {
            None => None,
            Some((title, j1)) => {
                if !lit_at(s, j1, lit_mid_content()) {
                    None
                } else {
                    match scan_string(s, j1 + lit_mid_content().len()) {
                        None => None,
                        Some((content, j2)) => {
                            if !lit_at(s, j2, lit_mid_nonce()) {
                                None
                            } else {
                                match scan_string(s, j2 + lit_mid_nonce().len()) {
                                    None => None,
                                    Some((nonce, j3)) => {
                                        if j3 < s.len() && s[j3] == '}' {
                                            Some((NoteView { title, content, nonce }, j3 + 1))
                                        } else {
                                            None
                                        }
                                    },
                                }
                            }
                        },
                    }
                }
            },
        }
    }
}

/// What a comma-separated run of records denotes, read from position
/// `i`.  A record is never empty, so its end always lies past `i`; the
/// inner bound discharges termination.
pub open spec fn scan_list(s: Seq<char>, i: int) -> Option<(Seq<NoteView>, int)>
    decreases s.len() - i,
{
    match scan_entry(s, i) {
        None => None,
        Some((nv, j)) => {
            if j < s.len() && s[j] == ',' {
                if i < j {
                    match scan_list(s, j + 1) {
                        None => None,
                        Some((rest, k)) => Some((seq![nv] + rest, k)),
                    }
                } else {
                    None
                }
            } else {
                Some((seq![nv], j))
            }
        },
    }
}

/// What a whole persisted text denotes: the collection, if the text is
/// a bracketed run of records and nothing more.
pub open spec fn scan_notes(s: Seq<char>) -> Option<Seq<NoteView>> {
    if s.len() == 2 && s[0] == '[' && s[1] == ']' {
        Some(Seq::empty())
    } else if s.len() >= 2 && s[0] == '[' {
        match scan_list(s, 1) {
            None => None,
            Some((ns, j)) => if j + 1 == s.len() && s[j] == ']' {
                Some(ns)
            } else {
                None
            },
        }
    } else {
        None
    }
}

/// The text `t` stands embedded in `s` at position `i`.
pub open spec fn embeds(s: Seq<char>, i: int, t: Seq<char>) -> bool {
    0 <= i && i + t.len() <= s.len() && s.subrange(i, i + t.len()) == t
}

proof fn lemma_embeds_at(s: Seq<char>, i: int, t: Seq<char>, m: int)
    requires
        embeds(s, i, t),
        0 <= m < t.len(),
    ensures
        s[i + m] == t[m],
{
    assert(t[m] == s.subrange(i, i + t.len())[m]);
}

proof fn lemma_embeds_sub(s: Seq<char>, i: int, t: Seq<char>, a: int, b: int)
    requires
        embeds(s, i, t),
        0 <= a <= b <= t.len(),
    ensures
        s.subrange(i + a, i + b) == t.subrange(a, b),
{
    assert(s.subrange(i + a, i + b) =~= t.subrange(a, b)) by {
        assert forall|m: int| 0 <= m < b - a implies s.subrange(i + a, i + b)[m] == t.subrange(
            a,
            b,
        )[m] by {
            assert(t[a + m] == s.subrange(i, i + t.len())[a + m]);
        }
    }
}

/// A string literal embedded in `s` scans to exactly the text it
/// escapes.
proof fn lemma_scan_string_complete(s: Seq<char>, i: int, v: Seq<char>, j: int)
    requires
        0 <= i <= j <= s.len(),
        s.subrange(i, j) == esc_text(v) + seq!['"'],
    ensures
        scan_string(s, i) == Some((v, j)),
    decreases v.len(),
{
    let tok = esc_text(v) + seq!['"'];
    assert(j - i == tok.len());
    assert(embeds(s, i, tok));
    if v.len() == 0 {
        assert(esc_text(v) =~= Seq::<char>::empty());
        assert(tok =~= seq!['"']);
        lemma_embeds_at(s, i, tok, 0);
        assert(v =~= Seq::<char>::empty());
    } else {
        let c = v[0];
        assert(esc_text(v) == esc_char(c) + esc_text(v.skip(1)));
        if c == '"' || c == '\\' {
            lemma_embeds_at(s, i, tok, 0);
            lemma_embeds_at(s, i, tok, 1);
            assert(s[i] == '\\' && s[i + 1] == c);
            lemma_embeds_sub(s, i, tok, 2, tok.len() as int);
            assert(tok.subrange(2, tok.len() as int) =~= esc_text(v.skip(1)) + seq!['"']);
            lemma_scan_string_complete(s, i + 2, v.skip(1), j);
            assert(seq![s[i + 1]] + v.skip(1) =~= v);
        } else {
            lemma_embeds_at(s, i, tok, 0);
            assert(s[i] == c);
            lemma_embeds_sub(s, i, tok, 1, tok.len() as int);
            assert(tok.subrange(1, tok.len() as int) =~= esc_text(v.skip(1)) + seq!['"']);
            lemma_scan_string_complete(s, i + 1, v.skip(1), j);
            assert(seq![s[i]] + v.skip(1) =~= v);
        }
    }
}

/// A serialized record embedded in `s` scans to exactly that record.
#[verifier::rlimit(40)]
proof fn lemma_scan_entry_complete(s: Seq<char>, i: int, nv: NoteView)
    requires
        embeds(s, i, ser_note(nv)),
    ensures
        scan_entry(s, i) == Some((nv, i + ser_note(nv).len())),
{
    let t = ser_note(nv);
    let e1 = esc_text(nv.title);
    let e2 = esc_text(nv.content);
    let e3 = esc_text(nv.nonce);
    let o1: int = 10;
    let o2: int = o1 + e1.len() + 1;
    let o3: int = o2 + 12;
    let o4: int = o3 + e2.len() + 1;
    let o5: int = o4 + 10;
    let o6: int = o5 + e3.len() + 1;
    assert(t.len() == o6 + 1);

    lemma_embeds_sub(s, i, t, 0, o1);
    assert(t.subrange(0, o1) =~= lit_open());
    assert(lit_at(s, i, lit_open()));

    lemma_embeds_sub(s, i, t, o1, o2);
    assert(t.subrange(o1, o2) =~= e1 + seq!['"']);
    lemma_scan_string_complete(s, i + o1, nv.title, i + o2);

    lemma_embeds_sub(s, i, t, o2, o3);
    assert(t.subrange(o2, o3) =~= lit_mid_content());
    assert(lit_at(s, i + o2, lit_mid_content()));

    lemma_embeds_sub(s, i, t, o3, o4);
    assert(t.subrange(o3, o4) =~= e2 + seq!['"']);
    lemma_scan_string_complete(s, i + o3, nv.content, i + o4);

    lemma_embeds_sub(s, i, t, o4, o5);
    assert(t.subrange(o4, o5) =~= lit_mid_nonce());
    assert(lit_at(s, i + o4, lit_mid_nonce()));

    lemma_embeds_sub(s, i, t, o5, o6);
    assert(t.subrange(o5, o6) =~= e3 + seq!['"']);
    lemma_scan_string_complete(s, i + o5, nv.nonce, i + o6);

    lemma_embeds_at(s, i, t, o6);
    assert(t[o6] == '}');
    assert(scan_entry(s, i) == Some((NoteView { title: nv.title, content: nv.content, nonce: nv.nonce }, i + o6 + 1)));
}

/// A serialized run of records followed by the closing bracket scans to
/// exactly those records.
proof fn lemma_scan_list_complete(s: Seq<char>, i: int, ns: Seq<NoteView>)
    requires
        0 <= i <= s.len(),
        ns.len() > 0,
        s.subrange(i, s.len() as int) == ser_list(ns) + seq![']'],
    ensures
        scan_list(s, i) == Some((ns, s.len() - 1)),
    decreases ns.len(),
{
    let suffix = ser_list(ns) + seq![']'];
    assert(embeds(s, i, suffix));
    let t = ser_note(ns[0]);
    assert(t.len() >= 24);
    if ns.len() == 1 {
        assert(ser_list(ns) == t);
        lemma_embeds_sub(s, i, suffix, 0, t.len() as int);
        assert(suffix.subrange(0, t.len() as int) =~= t);
        assert(embeds(s, i, t));
        lemma_scan_entry_complete(s, i, ns[0]);
        let j = i + t.len();
        lemma_embeds_at(s, i, suffix, t.len() as int);
        assert(s[j] == ']');
        assert(j == s.len() - 1);
        assert(seq![ns[0]] =~= ns);
    } else {
        assert(ser_list(ns) == t + seq![','] + ser_list(ns.skip(1)));
        lemma_embeds_sub(s, i, suffix, 0, t.len() as int);
        assert(suffix.subrange(0, t.len() as int) =~= t);
        assert(embeds(s, i, t));
        lemma_scan_entry_complete(s, i, ns[0]);
        let j = i + t.len();
        lemma_embeds_at(s, i, suffix, t.len() as int);
        assert(s[j] == ',');
        assert(j < s.len());
        lemma_embeds_sub(s, i, suffix, t.len() + 1 as int, suffix.len() as int);
        assert(suffix.subrange(t.len() + 1 as int, suffix.len() as int) =~= ser_list(ns.skip(1))
            + seq![']']);
        assert(s.subrange(j + 1, s.len() as int) == ser_list(ns.skip(1)) + seq![']']);
        lemma_scan_list_complete(s, j + 1, ns.skip(1));
        assert(seq![ns[0]] + ns.skip(1) =~= ns);
    }
}

/// Store round-trip law: parsing a serialized collection gives the
/// collection back, order preserved.
pub proof fn lemma_store_roundtrip(ns: Seq<NoteView>)
    ensures
        scan_notes(ser_notes(ns)) == Some(ns),
{
    let s = ser_notes(ns);
    if ns.len() == 0 {
        assert(ser_list(ns) =~= Seq::<char>::empty());
        assert(s =~= seq!['[', ']']);
        assert(ns =~= Seq::<NoteView>::empty());
    } else {
        assert(ser_note(ns[0]).len() >= 24);
        assert(ser_list(ns).len() >= 24) by {
            if ns.len() == 1 {
                assert(ser_list(ns) == ser_note(ns[0]));
            } else {
                assert(ser_list(ns) == ser_note(ns[0]) + seq![','] + ser_list(ns.skip(1)));
            }
        }
        assert(s.len() > 2);
        assert(s[0] == '[');
        assert(s.subrange(1, s.len() as int) =~= ser_list(ns) + seq![']']);
        lemma_scan_list_complete(s, 1, ns);
        assert(s[s.len() - 1] == ']');
    }
}

/// Relies on `std::string::String::push`: appends one character.
#[verifier::external_body]
fn push_char(s: &mut String, c: char)
    ensures
        final(s)@ == old(s)@.push(c),
{
    s.push(c);
}

/// Appends the escaped form of `text` to `out`.
fn push_escaped(out: &mut String, text: &str)
    ensures
        final(out)@ == old(out)@ + esc_text(text@),
{
    let n = text.unicode_len();
    let mut k: usize = 0;
    while k < n
        invariant
            k <= n,
            n == text@.len(),
            out@ == old(out)@ + esc_text(text@.take(k as int)),
        decreases n - k,
    {
        let c = text.get_char(k);
        if c == '"' || c == '\\' {
            push_char(out, '\\');
            push_char(out, c);
        } else {
            push_char(out, c);
        }
        proof {
            assert(text@.take(k + 1 as int) =~= text@.take(k as int).push(text@[k as int]));
            lemma_esc_snoc(text@.take(k as int), text@[k as int]);
            assert(out@ =~= old(out)@ + esc_text(text@.take(k + 1 as int)));
        }
        k += 1;
    }
    proof {
        assert(text@.take(n as int) =~= text@);
    }
}

/// Appends the serialized form of one record to `out`.
fn push_entry(out: &mut String, note: &Note)
    ensures
        final(out)@ == old(out)@ + ser_note(note@),
{
    out.append("{\"title\":\"");
    proof {
        reveal_strlit("{\"title\":\"");
        assert("{\"title\":\""@ =~= lit_open());
    }
    push_escaped(out, note.title.as_str());
    out.append("\",\"content\":\"");
    proof {
        reveal_strlit("\",\"content\":\"");
        assert("\",\"content\":\""@ =~= seq!['"'] + lit_mid_content());
    }
    push_escaped(out, note.content.as_str());
    out.append("\",\"nonce\":\"");
    proof {
        reveal_strlit("\",\"nonce\":\"");
        assert("\",\"nonce\":\""@ =~= seq!['"'] + lit_mid_nonce());
    }
    push_escaped(out, note.nonce.as_str());
    out.append("\"}");
    proof {
        reveal_strlit("\"}");
        assert("\"}"@ =~= seq!['"', '}']);
        assert(out@ =~= old(out)@ + ser_note(note@));
    }
}

/// Serializes a whole collection to its persisted text.
pub fn serialize_notes(notes: &Vec<Note>) -> (r: String)
    ensures
        r@ == ser_notes(notes.deep_view()),
{
    let ghost dv = notes.deep_view();
    let mut out = String::new();
    push_char(&mut out, '[');
    proof {
        assert(dv.take(0) =~= Seq::<NoteView>::empty());
        assert(out@ =~= seq!['['] + ser_list(dv.take(0)));
    }
    let mut i: usize = 0;
    while i < notes.len()
        invariant
            i <= notes.len(),
            dv == notes.deep_view(),
            dv.len() == notes@.len(),
            forall|k: int| 0 <= k < notes@.len() ==> dv[k] == notes@[k]@,
            out@ == seq!['['] + ser_list(dv.take(i as int)),
        decreases notes.len() - i,
    {
        if i > 0 {
            push_char(&mut out, ',');
        }
        push_entry(&mut out, &notes[i]);
        proof {
            assert(dv.take(i + 1 as int) =~= dv.take(i as int).push(dv[i as int]));
            lemma_ser_list_snoc(dv.take(i as int), dv[i as int]);
            assert(out@ =~= seq!['['] + ser_list(dv.take(i + 1 as int)));
        }
        i += 1;
    }
    push_char(&mut out, ']');
    proof {
        assert(dv.take(dv.len() as int) =~= dv);
        assert(out@ =~= ser_notes(dv));
    }
    out
}

/// Compares the fixed text `lit` against `s` at position `i`.
fn match_lit(s: &str, i: usize, lit: &str) -> (r: bool)
    requires
        i <= s@.len(),
    ensures
        r == lit_at(s@, i as int, lit@),
{
    let n = s.unicode_len();
    let m = lit.unicode_len();
    if m > n || i > n - m {
        return false;
    }
    let mut k: usize = 0;
    while k < m
        invariant
            k <= m,
            m == lit@.len(),
            n == s@.len(),
            i + m <= n,
            forall|p: int| 0 <= p < k ==> s@[i + p] == lit@[p],
        decreases m - k,
    {
        if s.get_char(i + k) != lit.get_char(k) {
            proof {
                if lit_at(s@, i as int, lit@) {
                    assert(s@.subrange(i as int, i + lit@.len())[k as int] == s@[i + k]);
                }
            }
            return false;
        }
        k += 1;
    }
    proof {
        assert(s@.subrange(i as int, i + lit@.len()) =~= lit@);
    }
    true
}

/// The remaining scan from `k` with `acc` already read gives the same
/// outcome as the scan from `start`.
spec fn scan_string_cont(s: Seq<char>, start: int, k: int, acc: Seq<char>) -> bool {
    scan_string(s, start) == match scan_string(s, k) {
        Some((v, j)) => Some::<(Seq<char>, int)>((acc + v, j)),
        None => None::<(Seq<char>, int)>,
    }
}

/// Reads one string literal of the format, from `start` up to and over
/// its closing quote.
fn parse_string(s: &str, start: usize) -> (r: Option<(String, usize)>)
    requires
        start <= s@.len(),
    ensures
        match r {
            Some((v, j)) => scan_string(s@, start as int) == Some((v@, j as int)) && start < j
                <= s@.len(),
            None => scan_string(s@, start as int) is None,
        },
{
    let n = s.unicode_len();
    let mut acc = String::new();
    let mut k: usize = start;
    proof {
        match scan_string(s@, start as int) {
            Some((v, j)) => {
                assert(acc@ + v =~= v);
            },
            None => {},
        }
    }
    loop
        invariant
            start <= k <= n,
            n == s@.len(),
            scan_string_cont(s@, start as int, k as int, acc@),
        decreases n - k,
    {
        if k >= n {
            return None;
        }
        let c = s.get_char(k);
        if c == '"' {
            proof {
                assert(acc@ + Seq::<char>::empty() =~= acc@);
            }
            return Some((acc, k + 1));
        }
        if c == '\\' {
            if k + 1 >= n {
                return None;
            }
            let d = s.get_char(k + 1);
            if d == '"' || d == '\\' {
                let ghost acc0 = acc@;
                push_char(&mut acc, d);
                proof {
                    match scan_string(s@, k as int + 2) {
                        Some((v, j)) => {
                            assert(acc0 + (seq![d] + v) =~= acc0.push(d) + v);
                        },
                        None => {},
                    }
                }
                k = k + 2;
            } else {
                return None;
            }
        } else {
            let ghost acc0 = acc@;
            push_char(&mut acc, c);
            proof {
                match scan_string(s@, k as int + 1) {
                    Some((v, j)) => {
                        assert(acc0 + (seq![c] + v) =~= acc0.push(c) + v);
                    },
                    None => {},
                }
            }
            k = k + 1;
        }
    }
}

/// Reads one record of the format, from its opening brace up to and
/// over its closing brace.
fn parse_entry(s: &str, start: usize) -> (r: Option<(Note, usize)>)
    requires
        start <= s@.len(),
    ensures
        match r {
            Some((note, j)) => scan_entry(s@, start as int) == Some((note@, j as int)) && start
                < j <= s@.len(),
            None => scan_entry(s@, start as int) is None,
        },
{
    proof {
        reveal_strlit("{\"title\":\"");
        assert("{\"title\":\""@ =~= lit_open());
        reveal_strlit(",\"content\":\"");
        assert(",\"content\":\""@ =~= lit_mid_content());
        reveal_strlit(",\"nonce\":\"");
        assert(",\"nonce\":\""@ =~= lit_mid_nonce());
    }
    let n = s.unicode_len();
    if !match_lit(s, start, "{\"title\":\"") {
        return None;
    }
    let l0 = "{\"title\":\"".unicode_len();
    let p1 = start + l0;
    let (title, j1) = match parse_string(s, p1) {
        Some(x) => x,
        None => {
            return None;
        },
    };
    if !match_lit(s, j1, ",\"content\":\"") {
        return None;
    }
    let l1 = ",\"content\":\"".unicode_len();
    let p2 = j1 + l1;
    let (content, j2) = match parse_string(s, p2) {
        Some(x) => x,
        None => {
            return None;
        },
    };
    if !match_lit(s, j2, ",\"nonce\":\"") {
        return None;
    }
    let l2 = ",\"nonce\":\"".unicode_len();
    let p3 = j2 + l2;
    let (nonce, j3) = match parse_string(s, p3) {
        Some(x) => x,
        None => {
            return None;
        },
    };
    if j3 < n && s.get_char(j3) == '}' {
        let note = Note { title, content, nonce };
        Some((note, j3 + 1))
    } else {
        None
    }
}

/// Store round-trip law at the executable level: the persisted text of
/// a collection always parses back to an equal collection.
pub fn serialize_parse_roundtrip(notes: &Vec<Note>) -> (r: Option<Vec<Note>>)
    ensures
        r matches Some(out) && out.deep_view() == notes.deep_view(),
{
    let text = serialize_notes(notes);
    proof {
        lemma_store_roundtrip(notes.deep_view());
    }
    parse_notes(text.as_str())
}

/// Parses a persisted text back into a collection.  Succeeds exactly on
/// the texts that denote one; anything else, a truncated file among it,
/// is refused whole — there is no partial recovery.
pub fn parse_notes(s: &str) -> (r: Option<Vec<Note>>)
    ensures
        match r {
            Some(notes) => scan_notes(s@) == Some(notes.deep_view()),
            None => scan_notes(s@) is None,
        },
{
    let n = s.unicode_len();
    if n < 2 {
        return None;
    }
    if s.get_char(0) != '[' {
        return None;
    }
    if n == 2 && s.get_char(1) == ']' {
        let fresh: Vec<Note> = Vec::new();
        proof {
            assert(fresh.deep_view() =~= Seq::<NoteView>::empty());
        }
        return Some(fresh);
    }
    let mut notes: Vec<Note> = Vec::new();
    let mut pos: usize = 1;
    proof {
        match scan_list(s@, 1int) {
            Some((ns, j)) => {
                assert(notes.deep_view() + ns =~= ns);
            },
            None => {},
        }
    }
    loop
        invariant
            1 <= pos <= n,
            n == s@.len(),
            s@.len() >= 2,
            s@[0] == '[',
            !(s@.len() == 2 && s@[1] == ']'),
            scan_notes(s@) == (match scan_list(s@, pos as int) {
                Some((ns, j)) => if j + 1 == s@.len() && s@[j] == ']' {
                    Some(notes.deep_view() + ns)
                } else {
                    None::<Seq<NoteView>>
                },
                None => None::<Seq<NoteView>>,
            }),
        decreases n - pos,
    {
        let (note, j) = match parse_entry(s, pos) {
            Some(x) => x,
            None => {
                return None;
            },
        };
        if j < n && s.get_char(j) == ',' {
            let ghost notes0 = notes.deep_view();
            proof {
                match scan_list(s@, j as int + 1) {
                    Some((rest, k)) => {
                        assert(notes0 + (seq![note@] + rest) =~= notes0.push(note@) + rest);
                    },
                    None => {},
                }
            }
            notes.push(note);
            proof {
                assert(notes.deep_view() =~= notes0.push(note@));
            }
            pos = j + 1;
        } else if j < n && s.get_char(j) == ']' && j + 1 == n {
            let ghost notes0 = notes.deep_view();
            proof {
                assert(notes0 + seq![note@] =~= notes0.push(note@));
            }
            notes.push(note);
            proof {
                assert(notes.deep_view() =~= notes0.push(note@));
            }
            return Some(notes);
        } else {
            return None;
        }
    }
}

} // verus!
