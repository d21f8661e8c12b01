//! The inline tag vocabulary and its classifier.
use vstd::prelude::*;
use crate::text::{chars_of, equals_literal, has_prefix, starts_with_literal};

verus! {

/// The kind of a bracketed inline tag.
#[derive(Clone, Copy, Debug, PartialEq, Eq, Structural)]
pub enum TagKind {
    Comment,
    M1,
    M2,
    P,
    I,
    C,
    B,
    Ex,
    LangID,
    MClose,
    IClose,
    ComClose,
    PClose,
    CClose,
    BClose,
    ExClose,
    LangIDClose,
    Unknown,
}

/// The written form of each kind spelled by one fixed literal; the language
/// span opener and `Unknown` have none and map to the empty sequence.
pub open spec fn spelling(k: TagKind) -> Seq<char> {
    match k {
        TagKind::Comment => "[com]"@,
        TagKind::ComClose => "[/com]"@,
        TagKind::M1 => "[m1]"@,
        TagKind::M2 => "[m2]"@,
        TagKind::MClose => "[/m]"@,
        TagKind::P => "[p]"@,
        TagKind::PClose => "[/p]"@,
        TagKind::I => "[i]"@,
        TagKind::IClose => "[/i]"@,
        TagKind::Ex => "[ex]"@,
        TagKind::ExClose => "[/ex]"@,
        TagKind::C => "[c]"@,
        TagKind::CClose => "[/c]"@,
        TagKind::B => "[b]"@,
        TagKind::BClose => "[/b]"@,
        TagKind::LangIDClose => "[/lang]"@,
        TagKind::LangID => Seq::empty(),
        TagKind::Unknown => Seq::empty(),
    }
}

/// Whether `k` is written as one fixed literal.
pub open spec fn has_fixed_spelling(k: TagKind) -> bool {
    k != TagKind::LangID && k != TagKind::Unknown
}

/// The opening of a language span, whatever its attribute.
pub open spec fn lang_prefix() -> Seq<char> {
    "[lang id="@
}

/// The kind of a whole bracket token `t`, from `[` to `]` inclusive.
pub open spec fn tag_kind_of(t: Seq<char>) -> TagKind {
    if has_prefix(t, lang_prefix()) {
        TagKind::LangID
    } else if t == "[com]"@ {
        TagKind::Comment
    } else if t == "[/com]"@ {
        TagKind::ComClose
    } else if t == "[m1]"@ {
        TagKind::M1
    } else if t == "[m2]"@ {
        TagKind::M2
    } else if t == "[/m]"@ {
        TagKind::MClose
    } else if t == "[p]"@ {
        TagKind::P
    } else if t == "[/p]"@ {
        TagKind::PClose
    } else if t == "[i]"@ {
        TagKind::I
    } else if t == "[/i]"@ {
        TagKind::IClose
    } else if t == "[ex]"@ {
        TagKind::Ex
    } else if t == "[/ex]"@ {
        TagKind::ExClose
    } else if t == "[c]"@ {
        TagKind::C
    } else if t == "[/c]"@ {
        TagKind::CClose
    } else if t == "[b]"@ {
        TagKind::B
    } else if t == "[/b]"@ {
        TagKind::BClose
    } else if t == "[/lang]"@ {
        TagKind::LangIDClose
    } else {
        TagKind::Unknown
    }
}

/// Whether `k` is one of the closing kinds.
pub open spec fn is_closing(k: TagKind) -> bool {
    match k {
        TagKind::MClose | TagKind::IClose | TagKind::ComClose | TagKind::PClose
        | TagKind::CClose | TagKind::BClose | TagKind::ExClose | TagKind::LangIDClose => true,
        _ => false,
    }
}

/// Whether the closer `close` ends a span that `open` began.
pub open spec fn closes(open: TagKind, close: TagKind) -> bool {
    match close {
        TagKind::MClose => open == TagKind::M1 || open == TagKind::M2,
        TagKind::IClose => open == TagKind::I,
        TagKind::ComClose => open == TagKind::Comment,
        TagKind::PClose => open == TagKind::P,
        TagKind::CClose => open == TagKind::C,
        TagKind::BClose => open == TagKind::B,
        TagKind::ExClose => open == TagKind::Ex,
        TagKind::LangIDClose => open == TagKind::LangID,
        _ => false,
    }
}

impl TagKind {
    /// Whether this kind closes a span.
    pub fn is_close(&self) -> (r: bool)
        ensures
            r == is_closing(*self),
    {
        match self {
            TagKind::MClose | TagKind::IClose | TagKind::ComClose | TagKind::PClose
            | TagKind::CClose | TagKind::BClose | TagKind::ExClose | TagKind::LangIDClose => true,
            _ => false,
        }
    }

    /// Whether this closer ends a span that `open` began.
    pub fn closes(&self, open: TagKind) -> (r: bool)
        ensures
            r == closes(open, *self),
    {
        match self {
            TagKind::MClose => open == TagKind::M1 || open == TagKind::M2,
            TagKind::IClose => open == TagKind::I,
            TagKind::ComClose => open == TagKind::Comment,
            TagKind::PClose => open == TagKind::P,
            TagKind::CClose => open == TagKind::C,
            TagKind::BClose => open == TagKind::B,
            TagKind::ExClose => open == TagKind::Ex,
            TagKind::LangIDClose => open == TagKind::LangID,
            _ => false,
        }
    }
}

/// Classifies a bracket token given as characters.
pub fn tag_kind_chars(t: &[char]) -> (k: TagKind)
    ensures
        k == tag_kind_of(t@),
{
    if starts_with_literal(t, "[lang id=") {
        TagKind::LangID
    } else if equals_literal(t, "[com]") {
        TagKind::Comment
    } else if equals_literal(t, "[/com]") {
        TagKind::ComClose
    } else if equals_literal(t, "[m1]") {
        TagKind::M1
    } else if equals_literal(t, "[m2]") {
        TagKind::M2
    } else if equals_literal(t, "[/m]") {
        TagKind::MClose
    } else if equals_literal(t, "[p]") {
        TagKind::P
    } else if equals_literal(t, "[/p]") {
        TagKind::PClose
    } else if equals_literal(t, "[i]") {
        TagKind::I
    } else if equals_literal(t, "[/i]") {
        TagKind::IClose
    } else if equals_literal(t, "[ex]") {
        TagKind::Ex
    } else if equals_literal(t, "[/ex]") {
        TagKind::ExClose
    } else if equals_literal(t, "[c]") {
        TagKind::C
    } else if equals_literal(t, "[/c]") {
        TagKind::CClose
    } else if equals_literal(t, "[b]") {
        TagKind::B
    } else if equals_literal(t, "[/b]") {
        TagKind::BClose
    } else if equals_literal(t, "[/lang]") {
        TagKind::LangIDClose
    } else {
        TagKind::Unknown
    }
}

/// Classifies a bracket token, from `[` to `]` inclusive.
pub fn tag_type(s: &str) -> (k: TagKind)
    ensures
        k == tag_kind_of(s@),
{
    let t = chars_of(s);
    tag_kind_chars(t.as_slice())
}

/// Lengths and leading characters of the vocabulary's literals, which tell
/// them apart.
proof fn lemma_literals()
    ensures
        "[lang id="@.len() == 9,
        "[lang id="@[1] == 'l',
        "[lang id="@[2] == 'a',
        "[com]"@.len() == 5,
        "[com]"@[1] == 'c',
        "[com]"@[2] == 'o',
        "[/com]"@.len() == 6,
        "[/com]"@[1] == '/',
        "[/com]"@[2] == 'c',
        "[m1]"@.len() == 4,
        "[m1]"@[1] == 'm',
        "[m1]"@[2] == '1',
        "[m2]"@.len() == 4,
        "[m2]"@[1] == 'm',
        "[m2]"@[2] == '2',
        "[/m]"@.len() == 4,
        "[/m]"@[1] == '/',
        "[/m]"@[2] == 'm',
        "[p]"@.len() == 3,
        "[p]"@[1] == 'p',
        "[p]"@[2] == ']',
        "[/p]"@.len() == 4,
        "[/p]"@[1] == '/',
        "[/p]"@[2] == 'p',
        "[i]"@.len() == 3,
        "[i]"@[1] == 'i',
        "[i]"@[2] == ']',
        "[/i]"@.len() == 4,
        "[/i]"@[1] == '/',
        "[/i]"@[2] == 'i',
        "[ex]"@.len() == 4,
        "[ex]"@[1] == 'e',
        "[ex]"@[2] == 'x',
        "[/ex]"@.len() == 5,
        "[/ex]"@[1] == '/',
        "[/ex]"@[2] == 'e',
        "[c]"@.len() == 3,
        "[c]"@[1] == 'c',
        "[c]"@[2] == ']',
        "[/c]"@.len() == 4,
        "[/c]"@[1] == '/',
        "[/c]"@[2] == 'c',
        "[b]"@.len() == 3,
        "[b]"@[1] == 'b',
        "[b]"@[2] == ']',
        "[/b]"@.len() == 4,
        "[/b]"@[1] == '/',
        "[/b]"@[2] == 'b',
        "[/lang]"@.len() == 7,
        "[/lang]"@[1] == '/',
        "[/lang]"@[2] == 'l',
{
    reveal_strlit("[lang id=");
    reveal_strlit("[com]");
    reveal_strlit("[/com]");
    reveal_strlit("[m1]");
    reveal_strlit("[m2]");
    reveal_strlit("[/m]");
    reveal_strlit("[p]");
    reveal_strlit("[/p]");
    reveal_strlit("[i]");
    reveal_strlit("[/i]");
    reveal_strlit("[ex]");
    reveal_strlit("[/ex]");
    reveal_strlit("[c]");
    reveal_strlit("[/c]");
    reveal_strlit("[b]");
    reveal_strlit("[/b]");
    reveal_strlit("[/lang]");
}

/// Every literal of the vocabulary classifies as the kind it spells.
pub proof fn lemma_vocabulary_classifies(k: TagKind)
    requires
        has_fixed_spelling(k),
    ensures
        tag_kind_of(spelling(k)) == k,
{
    lemma_literals();
}

/// A token that spells no literal of the vocabulary and does not open a
/// language span classifies as `Unknown`; one that opens a language span
/// classifies as `LangID`, whatever its attribute.
pub proof fn lemma_outside_vocabulary(t: Seq<char>)
    ensures
        has_prefix(t, lang_prefix()) ==> tag_kind_of(t) == TagKind::LangID,
        (!has_prefix(t, lang_prefix()) && forall|k: TagKind|
            has_fixed_spelling(k) ==> t != #[trigger] spelling(k)) ==> tag_kind_of(t)
            == TagKind::Unknown,
{
    if !has_prefix(t, lang_prefix()) && forall|k: TagKind|
        has_fixed_spelling(k) ==> t != #[trigger] spelling(k) {
        assert(t != spelling(TagKind::Comment));
        assert(t != spelling(TagKind::ComClose));
        assert(t != spelling(TagKind::M1));
        assert(t != spelling(TagKind::M2));
        assert(t != spelling(TagKind::MClose));
        assert(t != spelling(TagKind::P));
        assert(t != spelling(TagKind::PClose));
        assert(t != spelling(TagKind::I));
        assert(t != spelling(TagKind::IClose));
        assert(t != spelling(TagKind::Ex));
        assert(t != spelling(TagKind::ExClose));
        assert(t != spelling(TagKind::C));
        assert(t != spelling(TagKind::CClose));
        assert(t != spelling(TagKind::B));
        assert(t != spelling(TagKind::BClose));
        assert(t != spelling(TagKind::LangIDClose));
    }
}

/// One piece of a line built from text and tags.
pub enum Piece {
    /// A text character.
    Char(char),
    /// A whole bracket token.
    Tag(Seq<char>),
    /// A bracket written as text, escaped by a backslash before it.
    Escaped(char),
}

/// The characters of a piece.
pub open spec fn piece_text(p: Piece) -> Seq<char> {
    match p {
        Piece::Char(c) => seq![c],
        Piece::Tag(t) => t,
        Piece::Escaped(c) => seq!['\\', c],
    }
}

/// The line that the pieces spell, one after another.
pub open spec fn render(ps: Seq<Piece>) -> Seq<char>
    decreases ps.len(),
{
    if ps.len() == 0 {
        Seq::empty()
    } else {
        piece_text(ps[0]) + render(ps.drop_first())
    }
}

/// A token of the vocabulary written plainly: `[`, then characters that are
/// neither brackets nor backslashes, then `]`.
pub open spec fn known_token(t: Seq<char>) -> bool {
    &&& t.len() >= 2
    &&& t[0] == '['
    &&& t.last() == ']'
    &&& forall|i: int| 1 <= i < t.len() - 1 ==> #[trigger] t[i] != '[' && t[i] != ']' && t[i] != '\\'
    &&& tag_kind_of(t) != TagKind::Unknown
}

/// A text character that is not a bracket, a known token, or an escaped
/// bracket.
pub open spec fn piece_ok(p: Piece) -> bool {
    match p {
        Piece::Char(c) => c != '[' && c != ']',
        Piece::Tag(t) => known_token(t),
        Piece::Escaped(c) => c == '[' || c == ']',
    }
}

/// Pieces that are each well formed, with no backslash character right
/// before a tag (which would escape its bracket).
pub open spec fn pieces_ok(ps: Seq<Piece>) -> bool {
    &&& forall|i: int| 0 <= i < ps.len() ==> piece_ok(#[trigger] ps[i])
    &&& forall|i: int|
        0 <= i < ps.len() - 1 ==> (#[trigger] ps[i] == Piece::Char('\\') ==> !(ps[i + 1] is Tag))
}

/// Whether the tags among the pieces nest correctly, given the tags `open`
/// still open before them: every closer ends the innermost open span, and
/// none is left open at the end.
pub open spec fn nested(ps: Seq<Piece>, open: Seq<TagKind>) -> bool
    decreases ps.len(),
{
    if ps.len() == 0 {
        open.len() == 0
    } else {
        match ps[0] {
            Piece::Char(_) | Piece::Escaped(_) => nested(ps.drop_first(), open),
            Piece::Tag(t) => {
                let k = tag_kind_of(t);
                if is_closing(k) {
                    open.len() > 0 && closes(open.last(), k) && nested(
                        ps.drop_first(),
                        open.drop_last(),
                    )
                } else {
                    nested(ps.drop_first(), open.push(k))
                }
            },
        }
    }
}

/// Dropping the first piece keeps the pieces well formed.
pub proof fn lemma_pieces_ok_rest(ps: Seq<Piece>)
    requires
        pieces_ok(ps),
        ps.len() > 0,
    ensures
        pieces_ok(ps.drop_first()),
        piece_ok(ps[0]),
        ps[0] == Piece::Char('\\') && ps.len() > 1 ==> !(ps[1] is Tag),
{
    let r = ps.drop_first();
    assert(piece_ok(ps[0]));
    assert forall|i: int| 0 <= i < r.len() implies piece_ok(#[trigger] r[i]) by {
        assert(r[i] == ps[i + 1]);
        assert(piece_ok(ps[i + 1]));
    }
    assert forall|i: int| 0 <= i < r.len() - 1 implies (#[trigger] r[i] == Piece::Char('\\')
        ==> !(r[i + 1] is Tag)) by {
        assert(r[i] == ps[i + 1]);
        assert(r[i + 1] == ps[i + 2]);
        let j = i + 1;
        assert(ps[j] == Piece::Char('\\') ==> !(ps[j + 1] is Tag));
    }
    if ps.len() > 1 {
        let z: int = 0;
        assert(ps[z] == Piece::Char('\\') ==> !(ps[z + 1] is Tag));
    }
}

proof fn lemma_render_push(ps: Seq<Piece>, p: Piece)
    ensures
        render(ps.push(p)) == render(ps) + piece_text(p),
    decreases ps.len(),
{
    if ps.len() == 0 {
        assert(ps.push(p).drop_first() =~= Seq::<Piece>::empty());
        assert(render(ps.push(p)) =~= piece_text(p) + render(Seq::<Piece>::empty()));
        assert(render(ps) + piece_text(p) =~= piece_text(p));
        assert(piece_text(p) + Seq::<char>::empty() =~= piece_text(p));
    } else {
        assert(ps.push(p).drop_first() =~= ps.drop_first().push(p));
        assert(ps.push(p)[0] == ps[0]);
        lemma_render_push(ps.drop_first(), p);
        assert(piece_text(ps[0]) + (render(ps.drop_first()) + piece_text(p)) =~= (piece_text(ps[0])
            + render(ps.drop_first())) + piece_text(p));
    }
}

/// The pieces' rendering ends with the last piece's text.
pub proof fn lemma_render_last(ps: Seq<Piece>)
    requires
        ps.len() > 0,
    ensures
        render(ps) == render(ps.drop_last()) + piece_text(ps.last()),
{
    assert(ps.drop_last().push(ps.last()) =~= ps);
    lemma_render_push(ps.drop_last(), ps.last());
}

/// Dropping a final piece that is not a tag keeps the tags' nesting.
pub proof fn lemma_nested_drop_last_text(ps: Seq<Piece>, open: Seq<TagKind>)
    requires
        nested(ps, open),
        ps.len() > 0,
        !(ps.last() is Tag),
    ensures
        nested(ps.drop_last(), open),
    decreases ps.len(),
{
    if ps.len() > 1 {
        let r = ps.drop_first();
        assert(r.last() == ps.last());
        assert(ps.drop_last().drop_first() =~= r.drop_last());
        assert(ps.drop_last()[0] == ps[0]);
        match ps[0] {
            Piece::Char(_) | Piece::Escaped(_) => lemma_nested_drop_last_text(r, open),
            Piece::Tag(t) => {
                let k = tag_kind_of(t);
                if is_closing(k) {
                    lemma_nested_drop_last_text(r, open.drop_last());
                } else {
                    lemma_nested_drop_last_text(r, open.push(k));
                }
            },
        }
    } else {
        assert(ps.last() == ps[0]);
        assert(ps.drop_first().len() == 0);
        assert(nested(ps.drop_first(), open));
        assert(ps.drop_last().len() == 0);
    }
}

/// Dropping the last piece keeps the pieces well formed.
pub proof fn lemma_pieces_ok_init(ps: Seq<Piece>)
    requires
        pieces_ok(ps),
        ps.len() > 0,
    ensures
        pieces_ok(ps.drop_last()),
        piece_ok(ps.last()),
{
    let r = ps.drop_last();
    assert(piece_ok(ps[ps.len() - 1]));
    assert forall|i: int| 0 <= i < r.len() implies piece_ok(#[trigger] r[i]) by {
        assert(piece_ok(ps[i]));
    }
    assert forall|i: int| 0 <= i < r.len() - 1 implies (#[trigger] r[i] == Piece::Char('\\')
        ==> !(r[i + 1] is Tag)) by {
        assert(ps[i] == Piece::Char('\\') ==> !(ps[i + 1] is Tag));
    }
}

} // verus!
