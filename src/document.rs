//! Whole-document passes: decoding, splitting into lines, the grammar check
//! and the tag repair.
use vstd::prelude::*;
use crate::lines::{
    can_follow, document_roles, entry_ok, follows, lemma_entries_ok, line_role, line_role_chars,
    role_before, transitions_ok, LineRole,
};
use crate::repair::{repair_line, repaired_line, repaired_subs, subs_view, Repair};
use crate::scanner::{fault_of, scan_chars, scan_line, ScanError, ScanFault};
use crate::text::{
    chars_of, lemma_text_le_antisym, lemma_text_le_refl, lemma_text_le_total, lemma_text_le_trans,
    same_chars, string_from_chars, text_le, text_le_exec, trim, trim_chars,
};

verus! {

/// A problem found by the grammar check, with the 0-based number of its line.
#[derive(Clone, Debug, PartialEq, Eq)]
pub enum Diagnostic {
    /// A line that no role rule recognizes.
    UnrecognizedLine { line: usize },
    /// A headword already seen at line `first`.
    DuplicateKey { line: usize, first: usize },
    /// A line whose role may not follow the role of the line before.
    IllegalTransition { line: usize, prev: LineRole, curr: LineRole },
    /// A line whose bracketed tags are malformed.
    BadTags { line: usize, error: ScanError },
}

/// The mathematical form of a [`Diagnostic`].
pub enum Finding {
    UnrecognizedLine { line: nat },
    DuplicateKey { line: nat, first: nat },
    IllegalTransition { line: nat, prev: LineRole, curr: LineRole },
    BadTags { line: nat, error: ScanFault },
}

impl View for Diagnostic {
    type V = Finding;

    open spec fn view(&self) -> Finding {
        match self {
            Diagnostic::UnrecognizedLine { line } => Finding::UnrecognizedLine { line: *line as nat },
            Diagnostic::DuplicateKey { line, first } => Finding::DuplicateKey {
                line: *line as nat,
                first: *first as nat,
            },
            Diagnostic::IllegalTransition { line, prev, curr } => Finding::IllegalTransition {
                line: *line as nat,
                prev: *prev,
                curr: *curr,
            },
            Diagnostic::BadTags { line, error } => Finding::BadTags {
                line: *line as nat,
                error: error@,
            },
        }
    }
}

/// The view of a list of diagnostics.
pub open spec fn findings_of(v: Seq<Diagnostic>) -> Seq<Finding> {
    v.map_values(|d: Diagnostic| d@)
}

/// The headwords seen so far, each with the first line it was seen at, kept
/// in increasing order of headword so that a lookup halves its range at each
/// step.
pub struct KeyIndex {
    entries: Vec<(Vec<char>, usize)>,
    seen: Ghost<Map<Seq<char>, nat>>,
}

impl KeyIndex {
    /// The headwords seen so far and their first lines.
    pub closed spec fn view(&self) -> Map<Seq<char>, nat> {
        self.seen@
    }

    /// The stored entries are strictly increasing and agree with the map.
    pub closed spec fn wf(&self) -> bool {
        &&& forall|i: int, j: int|
            0 <= i < j < self.entries@.len() ==> text_le(
                #[trigger] self.entries@[i].0@,
                #[trigger] self.entries@[j].0@,
            ) && self.entries@[i].0@ != self.entries@[j].0@
        &&& forall|i: int|
            0 <= i < self.entries@.len() ==> #[trigger] self.seen@.contains_key(
                self.entries@[i].0@,
            ) && self.seen@[self.entries@[i].0@] == self.entries@[i].1 as nat
        &&& forall|k: Seq<char>|
            self.seen@.contains_key(k) ==> exists|i: int|
                0 <= i < self.entries@.len() && #[trigger] self.entries@[i].0@ == k
    }

    /// An index with no headword.
    pub fn new() -> (r: KeyIndex)
        ensures
            r.wf(),
            r@ == Map::<Seq<char>, nat>::empty(),
    {
        KeyIndex { entries: Vec::new(), seen: Ghost(Map::empty()) }
    }

    /// The first position whose headword is not below `key`, and whether
    /// `key` stands there.
    fn locate(&self, key: &Vec<char>) -> (r: (usize, bool))
        requires
            self.wf(),
        ensures
            r.0 <= self.entries@.len(),
            forall|i: int| 0 <= i < r.0 ==> !text_le(key@, #[trigger] self.entries@[i].0@),
            forall|i: int|
                r.0 <= i < self.entries@.len() ==> text_le(key@, #[trigger] self.entries@[i].0@),
            r.1 == self@.contains_key(key@),
            r.1 ==> r.0 < self.entries@.len() && self.entries@[r.0 as int].0@ == key@,
    {
        let mut lo: usize = 0;
        let mut hi: usize = self.entries.len();
        while lo < hi
            invariant
                self.wf(),
                lo <= hi <= self.entries@.len(),
                forall|i: int| 0 <= i < lo ==> !text_le(key@, #[trigger] self.entries@[i].0@),
                forall|i: int|
                    hi <= i < self.entries@.len() ==> text_le(key@, #[trigger] self.entries@[i].0@),
            decreases hi - lo,
        {
            let mid = lo + (hi - lo) / 2;
            let ghost m = self.entries@[mid as int].0@;
            if text_le_exec(key, &self.entries[mid].0) {
                assert forall|i: int| mid <= i < self.entries@.len() implies text_le(
                    key@,
                    #[trigger] self.entries@[i].0@,
                ) by {
                    if i > mid {
                        assert(text_le(m, self.entries@[i].0@));
                        lemma_text_le_trans(key@, m, self.entries@[i].0@);
                    }
                }
                hi = mid;
            } else {
                assert forall|i: int| 0 <= i < mid + 1 implies !text_le(
                    key@,
                    #[trigger] self.entries@[i].0@,
                ) by {
                    if i < mid {
                        assert(text_le(self.entries@[i].0@, m));
                        if text_le(key@, self.entries@[i].0@) {
                            lemma_text_le_trans(key@, self.entries@[i].0@, m);
                        }
                    }
                }
                lo = mid + 1;
            }
        }
        let found = lo < self.entries.len() && same_chars(
            self.entries[lo].0.as_slice(),
            key.as_slice(),
        );
        proof {
            lemma_text_le_refl(key@);
            if found {
                assert(self.seen@.contains_key(self.entries@[lo as int].0@));
            } else if self@.contains_key(key@) {
                let i = choose|i: int|
                    0 <= i < self.entries@.len() && #[trigger] self.entries@[i].0@ == key@;
                if i >= lo {
                    let e = self.entries@[lo as int].0@;
                    assert(i > lo);
                    assert(text_le(e, self.entries@[i].0@));
                    assert(text_le(key@, e));
                    lemma_text_le_antisym(key@, e);
                }
            }
        }
        (lo, found)
    }

    /// The first line at which `key` was seen, if it was.
    pub fn first_line(&self, key: &Vec<char>) -> (r: Option<usize>)
        requires
            self.wf(),
        ensures
            r.is_some() == self@.contains_key(key@),
            r.is_some() ==> r.unwrap() as nat == self@[key@],
    {
        let (pos, found) = self.locate(key);
        if found {
            assert(self.seen@.contains_key(self.entries@[pos as int].0@));
            Some(self.entries[pos].1)
        } else {
            None
        }
    }

    /// Records that `key`, not seen before, was first seen at `line`.
    pub fn insert(&mut self, key: Vec<char>, line: usize)
        requires
            old(self).wf(),
            !old(self)@.contains_key(key@),
        ensures
            final(self).wf(),
            final(self)@ == old(self)@.insert(key@, line as nat),
    {
        let (pos, _found) = self.locate(&key);
        let ghost k = key@;
        let ghost olde = self.entries@;
        proof {
            lemma_text_le_refl(k);
        }
        self.seen = Ghost(self.seen@.insert(k, line as nat));
        self.entries.insert(pos, (key, line));
        let ghost e = self.entries@;
        assert(e == olde.insert(pos as int, (e[pos as int].0, line)));
        assert forall|i: int| 0 <= i < olde.len() implies #[trigger] olde[i].0@ != k by {
            assert(old(self).seen@.contains_key(olde[i].0@));
        }
        assert forall|i: int, j: int| 0 <= i < j < e.len() implies text_le(
            #[trigger] e[i].0@,
            #[trigger] e[j].0@,
        ) && e[i].0@ != e[j].0@ by {
            let io = if i < pos { i } else { i - 1 };
            let jo = if j < pos { j } else { j - 1 };
            if i != pos && j != pos {
                assert(e[i] == olde[io] && e[j] == olde[jo]);
                assert(text_le(olde[io].0@, olde[jo].0@));
            } else if i == pos {
                assert(e[j] == olde[jo]);
                assert(text_le(k, olde[jo].0@));
            } else {
                assert(e[i] == olde[io]);
                assert(!text_le(k, olde[io].0@));
                lemma_text_le_total(k, olde[io].0@);
            }
        }
        assert forall|i: int| 0 <= i < e.len() implies #[trigger] self.seen@.contains_key(e[i].0@)
            && self.seen@[e[i].0@] == e[i].1 as nat by {
            if i < pos {
                assert(e[i] == olde[i]);
                assert(old(self).seen@.contains_key(olde[i].0@));
            } else if i > pos {
                assert(e[i] == olde[i - 1]);
                assert(old(self).seen@.contains_key(olde[i - 1].0@));
            }
        }
        assert forall|q: Seq<char>| self.seen@.contains_key(q) implies exists|i: int|
            0 <= i < e.len() && #[trigger] e[i].0@ == q by {
            if q == k {
                assert(e[pos as int].0@ == q);
            } else {
                let i = choose|i: int| 0 <= i < olde.len() && #[trigger] olde[i].0@ == q;
                if i < pos {
                    assert(e[i] == olde[i]);
                } else {
                    assert(e[i + 1] == olde[i]);
                }
            }
        }
    }
}

/// What the grammar check carries from one line to the next.
pub struct CheckState {
    pub findings: Seq<Finding>,
    pub prev: LineRole,
    pub keys: Map<Seq<char>, nat>,
}

/// The findings for line number `idx` of text `l`, checked after state `st`.
pub open spec fn check_step(st: CheckState, l: Seq<char>, idx: nat) -> CheckState {
    let role = line_role(l);
    let key = trim(l);
    let unrecognized = if role == LineRole::Invalid {
        seq![Finding::UnrecognizedLine { line: idx }]
    } else {
        Seq::empty()
    };
    let duplicate = if role == LineRole::Key && st.keys.contains_key(key) {
        seq![Finding::DuplicateKey { line: idx, first: st.keys[key] }]
    } else {
        Seq::empty()
    };
    let keys = if role == LineRole::Key && !st.keys.contains_key(key) {
        st.keys.insert(key, idx)
    } else {
        st.keys
    };
    let transition = if !follows(st.prev, role) {
        seq![Finding::IllegalTransition { line: idx, prev: st.prev, curr: role }]
    } else {
        Seq::empty()
    };
    let tags = match scan_line(l) {
        Some(e) => seq![Finding::BadTags { line: idx, error: e }],
        None => Seq::empty(),
    };
    CheckState {
        findings: st.findings + unrecognized + duplicate + transition + tags,
        prev: role,
        keys,
    }
}

/// The state of the grammar check after the lines `ls`.
pub open spec fn check_state(ls: Seq<Seq<char>>) -> CheckState
    decreases ls.len(),
{
    if ls.len() == 0 {
        CheckState { findings: Seq::empty(), prev: LineRole::Begin, keys: Map::empty() }
    } else {
        check_step(check_state(ls.drop_last()), ls.last(), (ls.len() - 1) as nat)
    }
}

/// The texts of a list of strings.
pub open spec fn texts(v: Seq<String>) -> Seq<Seq<char>> {
    v.map_values(|s: String| s@)
}

/// Runs the grammar check over a document's lines: for each line in order,
/// an unrecognized role, a repeated headword, an illegal role transition, and
/// the first tag problem.
pub fn check_document(lines: &Vec<String>) -> (r: Vec<Diagnostic>)
    ensures
        findings_of(r@) == check_state(texts(lines@)).findings,
{
    let mut r: Vec<Diagnostic> = Vec::new();
    let mut prev = LineRole::Begin;
    let mut keys = KeyIndex::new();
    let mut i: usize = 0;
    assert(texts(lines@).take(0).len() == 0);
    assert(findings_of(r@) =~= Seq::<Finding>::empty());
    while i < lines.len()
        invariant
            i <= lines@.len(),
            keys.wf(),
            check_state(texts(lines@).take(i as int)) == (CheckState {
                findings: findings_of(r@),
                prev,
                keys: keys@,
            }),
        decreases lines@.len() - i,
    {
        let ghost st = CheckState { findings: findings_of(r@), prev, keys: keys@ };
        let l = chars_of(lines[i].as_str());
        let role = line_role_chars(&l);
        if role == LineRole::Invalid {
            r.push(Diagnostic::UnrecognizedLine { line: i });
        }
        if role == LineRole::Key {
            let key = trim_chars(&l);
            match keys.first_line(&key) {
                Some(first) => {
                    r.push(Diagnostic::DuplicateKey { line: i, first });
                },
                None => {
                    keys.insert(key, i);
                },
            }
        }
        if !can_follow(prev, role) {
            r.push(Diagnostic::IllegalTransition { line: i, prev, curr: role });
        }
        let tr = trim_chars(&l);
        let scanned = scan_chars(&tr);
        match scanned {
            Some(e) => {
                r.push(Diagnostic::BadTags { line: i, error: e });
            },
            None => {},
        }
        proof {
            let ls = texts(lines@).take(i + 1);
            assert(ls.drop_last() =~= texts(lines@).take(i as int));
            assert(ls.last() == l@);
            let next = check_step(st, l@, i as nat);
            assert(findings_of(r@) =~= next.findings);
        }
        prev = role;
        i = i + 1;
    }
    assert(texts(lines@).take(lines@.len() as int) =~= texts(lines@));
    r
}

/// Rewrites each line of a document as the repair pass does, in order.
pub fn fix_invalid_tags(lines: &Vec<String>) -> (r: Vec<Repair>)
    ensures
        r@.len() == lines@.len(),
        forall|i: int|
            0 <= i < lines@.len() ==> (#[trigger] r@[i]).line@ == repaired_line(lines@[i]@)
                && subs_view(r@[i].substitutions@) == repaired_subs(lines@[i]@),
{
    let mut r: Vec<Repair> = Vec::new();
    let mut i: usize = 0;
    while i < lines.len()
        invariant
            i <= lines@.len(),
            r@.len() == i,
            forall|j: int|
                0 <= j < i ==> (#[trigger] r@[j]).line@ == repaired_line(lines@[j]@)
                    && subs_view(r@[j].substitutions@) == repaired_subs(lines@[j]@),
        decreases lines@.len() - i,
    {
        r.push(repair_line(lines[i].as_str()));
        i = i + 1;
    }
    r
}

/// What UTF-16LE decoding with BOM sniffing gives for `b`: the text, with
/// malformed sequences replaced, and whether any sequence was malformed.
pub uninterp spec fn utf16le_decoding(b: Seq<u8>) -> (Seq<char>, bool);

/// Relies on `encoding_rs::UTF_16LE.decode`: the decoded text and its
/// malformed-input flag depend on the bytes alone; the size computation it
/// makes cannot overflow below the bound.
#[verifier::external_body]
fn decode_utf16le(b: &[u8]) -> (r: (String, bool))
    requires
        b@.len() <= usize::MAX / 4,
    ensures
        (r.0@, r.1) == utf16le_decoding(b@),
{
    let (text, _encoding, had_errors) = encoding_rs::UTF_16LE.decode(b);
    (text.into_owned(), had_errors)
}

/// A text split into lines as `BufRead::lines` splits it: at each `\n`, a
/// `\r` before it dropped, and no line after a final terminator.
pub struct Split {
    pub done: Seq<Seq<char>>,
    pub current: Seq<char>,
}

/// The lines finished, and the line being read, after the characters `s`.
pub open spec fn split_state(s: Seq<char>) -> Split
    decreases s.len(),
{
    if s.len() == 0 {
        Split { done: Seq::empty(), current: Seq::empty() }
    } else {
        let st = split_state(s.drop_last());
        if s.last() == '\n' {
            Split { done: st.done.push(strip_cr(st.current)), current: Seq::empty() }
        } else {
            Split { done: st.done, current: st.current.push(s.last()) }
        }
    }
}

/// `l` without one `\r` at its end.
pub open spec fn strip_cr(l: Seq<char>) -> Seq<char> {
    if l.len() > 0 && l.last() == '\r' {
        l.drop_last()
    } else {
        l
    }
}

/// The lines of a text.
pub open spec fn text_lines(s: Seq<char>) -> Seq<Seq<char>> {
    let st = split_state(s);
    if st.current.len() > 0 {
        st.done.push(st.current)
    } else {
        st.done
    }
}

fn finish_line(cur: &Vec<char>) -> (r: String)
    ensures
        r@ == strip_cr(cur@),
{
    let n = cur.len();
    if n > 0 && cur[n - 1] == '\r' {
        let mut v: Vec<char> = Vec::new();
        let mut i: usize = 0;
        while i < n - 1
            invariant
                n == cur@.len(),
                n > 0,
                i <= n - 1,
                v@ == cur@.take(i as int),
            decreases n - 1 - i,
        {
            v.push(cur[i]);
            i = i + 1;
            assert(v@ =~= cur@.take(i as int));
        }
        assert(v@ =~= cur@.drop_last());
        string_from_chars(&v)
    } else {
        string_from_chars(cur)
    }
}

/// Splits a text into its lines, without their terminators.
pub fn split_lines(text: &str) -> (r: Vec<String>)
    ensures
        texts(r@) == text_lines(text@),
{
    let t = chars_of(text);
    let n = t.len();
    let mut r: Vec<String> = Vec::new();
    let mut cur: Vec<char> = Vec::new();
    let mut i: usize = 0;
    assert(t@.take(0) =~= Seq::<char>::empty());
    assert(texts(r@) =~= Seq::<Seq<char>>::empty());
    assert(cur@ =~= Seq::<char>::empty());
    while i < n
        invariant
            n == t@.len(),
            i <= n,
            split_state(t@.take(i as int)) == (Split { done: texts(r@), current: cur@ }),
        decreases n - i,
    {
        let c = t[i];
        assert(t@.take(i + 1).drop_last() =~= t@.take(i as int));
        if c == '\n' {
            let l = finish_line(&cur);
            let ghost before = r@;
            r.push(l);
            assert(texts(r@) =~= texts(before).push(l@));
            cur = Vec::new();
            assert(cur@ =~= Seq::<char>::empty());
        } else {
            cur.push(c);
        }
        i = i + 1;
    }
    assert(t@.take(n as int) =~= t@);
    if cur.len() > 0 {
        let ghost before = r@;
        r.push(string_from_chars(&cur));
        assert(texts(r@) =~= texts(before).push(cur@));
    }
    r
}

/// Decodes a document stored as UTF-16LE and splits it into lines; `None`
/// when the bytes hold a malformed sequence.
pub fn decode_document(bytes: &[u8]) -> (r: Option<Vec<String>>)
    requires
        bytes@.len() <= usize::MAX / 4,
    ensures
        utf16le_decoding(bytes@).1 ==> r is None,
        !utf16le_decoding(bytes@).1 ==> r is Some && texts(r->Some_0@) == text_lines(
            utf16le_decoding(bytes@).0,
        ),
{
    let (text, malformed) = decode_utf16le(bytes);
    if malformed {
        None
    } else {
        Some(split_lines(text.as_str()))
    }
}


/// The roles of a sequence of lines.
pub open spec fn roles_of(ls: Seq<Seq<char>>) -> Seq<LineRole> {
    ls.map_values(|l: Seq<char>| line_role(l))
}

proof fn lemma_no_transition_findings(ls: Seq<Seq<char>>)
    requires
        transitions_ok(roles_of(ls)),
    ensures
        forall|i: int|
            0 <= i < check_state(ls).findings.len() ==> !(#[trigger] check_state(
                ls,
            ).findings[i] is IllegalTransition),
        check_state(ls).prev == if ls.len() == 0 {
            LineRole::Begin
        } else {
            line_role(ls.last())
        },
    decreases ls.len(),
{
    if ls.len() > 0 {
        let rest = ls.drop_last();
        let roles = roles_of(ls);
        assert(roles_of(rest) =~= roles.drop_last());
        assert forall|i: int| 0 <= i < roles_of(rest).len() implies #[trigger] follows(
            role_before(roles_of(rest), i),
            roles_of(rest)[i],
        ) by {
            assert(follows(role_before(roles, i), roles[i]));
            if i > 0 {
                assert(role_before(roles, i) == roles[i - 1]);
            }
        }
        lemma_no_transition_findings(rest);
        let n = ls.len() - 1;
        assert(follows(role_before(roles, n), roles[n]));
        assert(follows(check_state(rest).prev, line_role(ls.last())));
        let before = check_state(rest).findings;
        let after = check_state(ls).findings;
        assert forall|i: int| 0 <= i < after.len() implies !(#[trigger] after[i] is IllegalTransition) by {
            if i < before.len() {
                assert(after[i] == before[i]);
            }
        }
    }
}

/// A document whose lines have the roles of the header, one or more blank
/// lines and well-formed entries gets no illegal-transition diagnostic.
pub proof fn lemma_well_formed_document_transitions(
    lines: Seq<Seq<char>>,
    blanks: nat,
    entries: Seq<Seq<LineRole>>,
)
    requires
        blanks >= 1,
        forall|k: int| 0 <= k < entries.len() ==> entry_ok(#[trigger] entries[k]),
        roles_of(lines) == document_roles(blanks, entries),
    ensures
        forall|i: int|
            0 <= i < check_state(lines).findings.len() ==> !(#[trigger] check_state(
                lines,
            ).findings[i] is IllegalTransition),
{
    lemma_entries_ok(blanks, entries);
    lemma_no_transition_findings(lines);
}


proof fn lemma_findings_prefix(ls: Seq<Seq<char>>, k: int)
    requires
        0 <= k <= ls.len(),
    ensures
        check_state(ls.take(k)).findings.len() <= check_state(ls).findings.len(),
        check_state(ls).findings.take(check_state(ls.take(k)).findings.len() as int)
            == check_state(ls.take(k)).findings,
    decreases ls.len(),
{
    if k == ls.len() {
        assert(ls.take(k) =~= ls);
        assert(check_state(ls).findings.take(check_state(ls).findings.len() as int)
            =~= check_state(ls).findings);
    } else {
        let rest = ls.drop_last();
        assert(rest.take(k) =~= ls.take(k));
        lemma_findings_prefix(rest, k);
        let a = check_state(ls.take(k)).findings;
        let b = check_state(rest).findings;
        let c = check_state(ls).findings;
        assert(c.take(b.len() as int) =~= b);
        assert(c.take(a.len() as int) =~= b.take(a.len() as int));
    }
}

/// Whether line `j` of `ls` is a headword whose trimmed text is `k`.
pub open spec fn key_at(ls: Seq<Seq<char>>, j: int, k: Seq<char>) -> bool {
    0 <= j < ls.len() && line_role(ls[j]) == LineRole::Key && trim(ls[j]) == k
}

/// After the lines `ls`, the index holds exactly the headwords seen, each
/// with the first line it was seen at.
pub proof fn lemma_key_index_first(ls: Seq<Seq<char>>)
    ensures
        forall|k: Seq<char>|
            check_state(ls).keys.contains_key(k) <==> exists|j: int| #[trigger] key_at(ls, j, k),
        forall|k: Seq<char>|
            #[trigger] check_state(ls).keys.contains_key(k) ==> key_at(
                ls,
                check_state(ls).keys[k] as int,
                k,
            ) && forall|j: int| 0 <= j < check_state(ls).keys[k] ==> !key_at(ls, j, k),
    decreases ls.len(),
{
    if ls.len() > 0 {
        let rest = ls.drop_last();
        let n = ls.len() - 1;
        lemma_key_index_first(rest);
        assert forall|j: int, k: Seq<char>| 0 <= j < n implies key_at(ls, j, k) == key_at(rest, j, k)
            by {
            assert(ls[j] == rest[j]);
        }
        let before = check_state(rest).keys;
        let after = check_state(ls).keys;
        assert forall|k: Seq<char>| after.contains_key(k) <==> exists|j: int| #[trigger] key_at(ls, j, k)
            by {
            if after.contains_key(k) {
                if before.contains_key(k) {
                    let j = choose|j: int| #[trigger] key_at(rest, j, k);
                    assert(key_at(ls, j, k));
                } else {
                    assert(key_at(ls, n, k));
                }
            }
            if exists|j: int| #[trigger] key_at(ls, j, k) {
                let j = choose|j: int| #[trigger] key_at(ls, j, k);
                if j < n {
                    assert(key_at(rest, j, k));
                }
            }
        }
        assert forall|k: Seq<char>| #[trigger] after.contains_key(k) implies key_at(
            ls,
            after[k] as int,
            k,
        ) && forall|j: int| 0 <= j < after[k] ==> !key_at(ls, j, k) by {
            if before.contains_key(k) {
                assert(after[k] == before[k]);
                assert forall|j: int| 0 <= j < after[k] implies !key_at(ls, j, k) by {
                    assert(!key_at(rest, j, k));
                }
            } else {
                assert(after[k] == n);
                assert forall|j: int| 0 <= j < after[k] implies !key_at(ls, j, k) by {
                    if key_at(ls, j, k) {
                        assert(key_at(rest, j, k));
                    }
                }
            }
        }
    }
}

/// A headword repeated at line `j` after its first occurrence at line `i`
/// gets a duplicate diagnostic citing both lines, and the index keeps line
/// `i` for it.
pub proof fn lemma_duplicate_headword(ls: Seq<Seq<char>>, i: int, j: int, w: Seq<char>)
    requires
        i < j,
        key_at(ls, i, w),
        key_at(ls, j, w),
        forall|m: int| 0 <= m < i ==> !key_at(ls, m, w),
    ensures
        exists|x: int|
            0 <= x < check_state(ls).findings.len() && check_state(ls).findings[x]
                == (Finding::DuplicateKey { line: j as nat, first: i as nat }),
        check_state(ls).keys[w] == i,
{
    let p = ls.take(j + 1);
    let q = ls.take(j);
    assert(p.drop_last() =~= q);
    assert(p.last() == ls[j]);
    lemma_key_index_first(q);
    assert(key_at(q, i, w)) by {
        assert(q[i] == ls[i]);
    }
    let kq = check_state(q).keys;
    assert(kq.contains_key(w));
    assert(kq[w] == i) by {
        let v = kq[w] as int;
        assert(key_at(q, v, w));
        assert(q[v] == ls[v]);
        if v < i {
            assert(key_at(ls, v, w));
        }
        if v > i {
            assert(!key_at(q, i, w));
        }
    }
    let before = check_state(q).findings;
    assert(check_state(p).findings[before.len() as int] == (Finding::DuplicateKey {
        line: j as nat,
        first: i as nat,
    }));
    lemma_findings_prefix(ls, j + 1);
    let full = check_state(ls).findings;
    assert(full[before.len() as int] == check_state(p).findings[before.len() as int]) by {
        assert(full.take(check_state(p).findings.len() as int)[before.len() as int] == full[before.len() as int]);
    }
    lemma_key_index_first(ls);
    assert(key_at(ls, i, w));
    assert(check_state(ls).keys.contains_key(w));
    let v = check_state(ls).keys[w] as int;
    assert(key_at(ls, v, w));
    if v > i {
        assert(!key_at(ls, i, w));
    }
}

/// A blank line right after a headword gets a transition diagnostic naming
/// both roles.
pub proof fn lemma_blank_after_headword(ls: Seq<Seq<char>>, i: int)
    requires
        0 <= i,
        i + 1 < ls.len(),
        line_role(ls[i]) == LineRole::Key,
        ls[i + 1].len() == 0,
    ensures
        exists|x: int|
            0 <= x < check_state(ls).findings.len() && check_state(ls).findings[x]
                == (Finding::IllegalTransition {
                line: (i + 1) as nat,
                prev: LineRole::Key,
                curr: LineRole::EmptyLine,
            }),
{
    let p = ls.take(i + 2);
    let q = ls.take(i + 1);
    assert(p.drop_last() =~= q);
    assert(p.last() == ls[i + 1]);
    assert(q.last() == ls[i]);
    assert(check_state(q).prev == LineRole::Key);
    let before = check_state(q).findings;
    let x = before.len() as int;
    assert(check_state(p).findings[x] == (Finding::IllegalTransition {
        line: (i + 1) as nat,
        prev: LineRole::Key,
        curr: LineRole::EmptyLine,
    }));
    lemma_findings_prefix(ls, i + 2);
    let full = check_state(ls).findings;
    assert(full.take(check_state(p).findings.len() as int)[x] == full[x]);
}

} // verus!
