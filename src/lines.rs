//! Line roles, their classifier, and the table of legal role transitions.
use vstd::prelude::*;
use crate::text::{
    chars_of, contains_literal, contains_seq, equals_literal, has_prefix, starts_with_literal,
    trim, trim_chars,
};

verus! {

/// The role of one physical line of a document.
#[derive(Clone, Copy, Debug, PartialEq, Eq, Structural)]
pub enum LineRole {
    Begin,
    Name,
    Index,
    Lang,
    EmptyLine,
    Key,
    Comment,
    Text,
    M1,
    M2,
    RomanNumber,
    Invalid,
}

/// The value of a roman numeral from I to X, 0 for anything else.
pub open spec fn roman_value(t: Seq<char>) -> u8 {
    if t == "I"@ {
        1
    } else if t == "II"@ {
        2
    } else if t == "III"@ {
        3
    } else if t == "IV"@ {
        4
    } else if t == "V"@ {
        5
    } else if t == "VI"@ {
        6
    } else if t == "VII"@ {
        7
    } else if t == "VIII"@ {
        8
    } else if t == "IX"@ {
        9
    } else if t == "X"@ {
        10
    } else {
        0
    }
}

/// The role of a line, by the first rule in order that its text meets.
pub open spec fn line_role(s: Seq<char>) -> LineRole {
    if s.len() == 0 {
        LineRole::EmptyLine
    } else if has_prefix(s, "#NAME "@) {
        LineRole::Name
    } else if has_prefix(s, "#INDEX_LANGUAGE "@) {
        LineRole::Index
    } else if has_prefix(s, "#CONTENTS_LANGUAGE "@) {
        LineRole::Lang
    } else if !has_prefix(s, "\t"@) {
        LineRole::Key
    } else if roman_value(trim(s)) != 0 {
        LineRole::RomanNumber
    } else if !has_prefix(s, "\t["@) {
        LineRole::Text
    } else if has_prefix(s, "\t[m1]"@) {
        LineRole::M1
    } else if has_prefix(s, "\t[m2]"@) {
        LineRole::M2
    } else if contains_seq(s, "[com]"@) {
        LineRole::Comment
    } else {
        LineRole::Invalid
    }
}

/// Whether a line of role `curr` may directly follow one of role `prev`.
pub open spec fn follows(prev: LineRole, curr: LineRole) -> bool {
    match prev {
        LineRole::Begin => curr == LineRole::Name,
        LineRole::Name => curr == LineRole::Index,
        LineRole::Index => curr == LineRole::Lang,
        LineRole::Lang => curr == LineRole::EmptyLine,
        LineRole::EmptyLine => curr == LineRole::Key || curr == LineRole::EmptyLine,
        LineRole::Key => curr == LineRole::Comment || curr == LineRole::Text || curr
            == LineRole::M1 || curr == LineRole::RomanNumber,
        LineRole::Comment => curr == LineRole::Text || curr == LineRole::M1 || curr
            == LineRole::Comment || curr == LineRole::RomanNumber || curr == LineRole::Key,
        LineRole::Text | LineRole::M1 | LineRole::M2 => curr == LineRole::Comment || curr
            == LineRole::Key || curr == LineRole::M1 || curr == LineRole::M2 || curr
            == LineRole::Text || curr == LineRole::RomanNumber,
        LineRole::RomanNumber => curr == LineRole::Comment || curr == LineRole::M1 || curr
            == LineRole::Text,
        _ => false,
    }
}

fn roman_of_chars(t: &[char]) -> (r: u8)
    ensures
        r == roman_value(t@),
{
    if equals_literal(t, "I") {
        1
    } else if equals_literal(t, "II") {
        2
    } else if equals_literal(t, "III") {
        3
    } else if equals_literal(t, "IV") {
        4
    } else if equals_literal(t, "V") {
        5
    } else if equals_literal(t, "VI") {
        6
    } else if equals_literal(t, "VII") {
        7
    } else if equals_literal(t, "VIII") {
        8
    } else if equals_literal(t, "IX") {
        9
    } else if equals_literal(t, "X") {
        10
    } else {
        0
    }
}

/// The value of the roman numeral that `s` holds between white space, or 0.
pub fn roman_to_u8(s: &str) -> (r: u8)
    ensures
        r == roman_value(trim(s@)),
{
    let c = chars_of(s);
    let t = trim_chars(&c);
    roman_of_chars(t.as_slice())
}

/// Classifies a line given as characters.
pub fn line_role_chars(s: &Vec<char>) -> (r: LineRole)
    ensures
        r == line_role(s@),
{
    let t = s.as_slice();
    if s.len() == 0 {
        return LineRole::EmptyLine;
    }
    if starts_with_literal(t, "#NAME ") {
        return LineRole::Name;
    }
    if starts_with_literal(t, "#INDEX_LANGUAGE ") {
        return LineRole::Index;
    }
    if starts_with_literal(t, "#CONTENTS_LANGUAGE ") {
        return LineRole::Lang;
    }
    if !starts_with_literal(t, "\t") {
        return LineRole::Key;
    }
    let tr = trim_chars(s);
    if roman_of_chars(tr.as_slice()) != 0 {
        return LineRole::RomanNumber;
    }
    if !starts_with_literal(t, "\t[") {
        return LineRole::Text;
    }
    if starts_with_literal(t, "\t[m1]") {
        return LineRole::M1;
    }
    if starts_with_literal(t, "\t[m2]") {
        return LineRole::M2;
    }
    if contains_literal(t, "[com]") {
        return LineRole::Comment;
    }
    LineRole::Invalid
}

/// Classifies one physical line, given without its line terminator.
pub fn line_type(s: &str) -> (r: LineRole)
    ensures
        r == line_role(s@),
{
    let c = chars_of(s);
    line_role_chars(&c)
}

/// Whether a line of role `curr` may directly follow one of role `prev`.
pub fn can_follow(prev: LineRole, curr: LineRole) -> (r: bool)
    ensures
        r == follows(prev, curr),
{
    match prev {
        LineRole::Begin => curr == LineRole::Name,
        LineRole::Name => curr == LineRole::Index,
        LineRole::Index => curr == LineRole::Lang,
        LineRole::Lang => curr == LineRole::EmptyLine,
        LineRole::EmptyLine => curr == LineRole::Key || curr == LineRole::EmptyLine,
        LineRole::Key => curr == LineRole::Comment || curr == LineRole::Text || curr
            == LineRole::M1 || curr == LineRole::RomanNumber,
        LineRole::Comment => curr == LineRole::Text || curr == LineRole::M1 || curr
            == LineRole::Comment || curr == LineRole::RomanNumber || curr == LineRole::Key,
        LineRole::Text | LineRole::M1 | LineRole::M2 => curr == LineRole::Comment || curr
            == LineRole::Key || curr == LineRole::M1 || curr == LineRole::M2 || curr
            == LineRole::Text || curr == LineRole::RomanNumber,
        LineRole::RomanNumber => curr == LineRole::Comment || curr == LineRole::M1 || curr
            == LineRole::Text,
        _ => false,
    }
}

/// Whether `r` is the role of a line inside an entry's body.
pub open spec fn is_body(r: LineRole) -> bool {
    r == LineRole::Comment || r == LineRole::Text || r == LineRole::M1 || r == LineRole::M2
        || r == LineRole::RomanNumber
}

/// Whether a body line of role `c` may stand after a line of role `p` in a
/// well-formed entry: a second marker line continues a text or marker line,
/// and a sense number is not repeated.
pub open spec fn entry_pair_ok(p: LineRole, c: LineRole) -> bool {
    &&& is_body(c)
    &&& c == LineRole::M2 ==> (p == LineRole::Text || p == LineRole::M1 || p == LineRole::M2)
    &&& c == LineRole::RomanNumber ==> p != LineRole::RomanNumber
}

/// A well-formed entry: a headword, then one or more body lines, each fit to
/// stand after the one before, the last not a sense number.
pub open spec fn entry_ok(e: Seq<LineRole>) -> bool {
    &&& e.len() >= 2
    &&& e[0] == LineRole::Key
    &&& e.last() != LineRole::RomanNumber
    &&& forall|i: int| 1 <= i < e.len() ==> #[trigger] entry_pair_ok(e[i - 1], e[i])
}

/// The entries' roles one after another.
pub open spec fn flatten(es: Seq<Seq<LineRole>>) -> Seq<LineRole>
    decreases es.len(),
{
    if es.len() == 0 {
        Seq::empty()
    } else {
        flatten(es.drop_last()) + es.last()
    }
}

/// The header lines followed by `blanks` blank lines.
pub open spec fn header_roles(blanks: nat) -> Seq<LineRole> {
    seq![LineRole::Name, LineRole::Index, LineRole::Lang] + Seq::new(blanks, |i: int| LineRole::EmptyLine)
}

/// The roles of a document made of the header, `blanks` blank lines and the
/// given entries.
pub open spec fn document_roles(blanks: nat, entries: Seq<Seq<LineRole>>) -> Seq<LineRole> {
    header_roles(blanks) + flatten(entries)
}

/// The role before position `i`; the start sentinel before the first line.
pub open spec fn role_before(roles: Seq<LineRole>, i: int) -> LineRole {
    if i == 0 {
        LineRole::Begin
    } else {
        roles[i - 1]
    }
}

/// Whether every line's role may follow the role before it.
pub open spec fn transitions_ok(roles: Seq<LineRole>) -> bool {
    forall|i: int| 0 <= i < roles.len() ==> #[trigger] follows(role_before(roles, i), roles[i])
}

proof fn lemma_body_step(p: LineRole, c: LineRole)
    requires
        p == LineRole::Key || is_body(p),
        is_body(c),
        c == LineRole::M2 ==> (p == LineRole::Text || p == LineRole::M1 || p == LineRole::M2),
        c == LineRole::RomanNumber ==> p != LineRole::RomanNumber,
    ensures
        follows(p, c),
{
}

proof fn lemma_entry_inner(e: Seq<LineRole>, j: int)
    requires
        entry_ok(e),
        1 <= j < e.len(),
    ensures
        follows(e[j - 1], e[j]),
{
    assert(entry_pair_ok(e[j - 1], e[j]));
    if j >= 2 {
        let k = j - 1;
        assert(entry_pair_ok(e[k - 1], e[k]));
    }
    lemma_body_step(e[j - 1], e[j]);
}

proof fn lemma_append_entry(a: Seq<LineRole>, e: Seq<LineRole>)
    requires
        transitions_ok(a),
        a.len() > 0,
        a.last() == LineRole::EmptyLine || (is_body(a.last()) && a.last() != LineRole::RomanNumber),
        entry_ok(e),
    ensures
        transitions_ok(a + e),
        is_body((a + e).last()) && (a + e).last() != LineRole::RomanNumber,
{
    let r = a + e;
    assert forall|i: int| 0 <= i < r.len() implies #[trigger] follows(role_before(r, i), r[i]) by {
        if i < a.len() {
            assert(r[i] == a[i]);
            assert(role_before(r, i) == role_before(a, i));
            assert(follows(role_before(a, i), a[i]));
        } else if i == a.len() {
            assert(r[i] == e[0]);
            assert(role_before(r, i) == a.last());
        } else {
            let j = i - a.len();
            assert(r[i] == e[j]);
            assert(r[i - 1] == e[j - 1]);
            lemma_entry_inner(e, j);
        }
    }
    assert(r.last() == e.last());
    let k = e.len() - 1;
    assert(entry_pair_ok(e[k - 1], e[k]));
}

proof fn lemma_header_ok(blanks: nat)
    requires
        blanks >= 1,
    ensures
        transitions_ok(header_roles(blanks)),
        header_roles(blanks).len() > 0,
        header_roles(blanks).last() == LineRole::EmptyLine,
{
    let h = header_roles(blanks);
    assert(h[0] == LineRole::Name);
    assert(h[1] == LineRole::Index);
    assert(h[2] == LineRole::Lang);
    assert forall|i: int| 3 <= i < h.len() implies #[trigger] h[i] == LineRole::EmptyLine by {}
    assert forall|i: int| 0 <= i < h.len() implies #[trigger] follows(role_before(h, i), h[i]) by {
        if i >= 4 {
            assert(h[i - 1] == LineRole::EmptyLine);
        }
    }
}

/// The roles of a header, one or more blank lines and well-formed entries
/// obey the transition table at every line, and the last of them may be
/// followed by a headword.
pub proof fn lemma_entries_ok(blanks: nat, entries: Seq<Seq<LineRole>>)
    requires
        blanks >= 1,
        forall|k: int| 0 <= k < entries.len() ==> entry_ok(#[trigger] entries[k]),
    ensures
        transitions_ok(document_roles(blanks, entries)),
        document_roles(blanks, entries).len() > 0,
        ({
            let l = document_roles(blanks, entries).last();
            l == LineRole::EmptyLine || (is_body(l) && l != LineRole::RomanNumber)
        }),
    decreases entries.len(),
{
    if entries.len() == 0 {
        lemma_header_ok(blanks);
        assert(document_roles(blanks, entries) =~= header_roles(blanks));
    } else {
        let rest = entries.drop_last();
        assert forall|k: int| 0 <= k < rest.len() implies entry_ok(#[trigger] rest[k]) by {
            assert(rest[k] == entries[k]);
        }
        lemma_entries_ok(blanks, rest);
        assert(entry_ok(entries[entries.len() - 1]));
        lemma_append_entry(document_roles(blanks, rest), entries.last());
        assert(document_roles(blanks, entries) =~= document_roles(blanks, rest) + entries.last());
    }
}

} // verus!
