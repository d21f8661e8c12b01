//! The inline tag scanner: checks that the bracketed tags of one line are
//! well formed, known, and correctly nested.
use vstd::prelude::*;
use crate::tags::{
    closes, is_closing, known_token, lemma_nested_drop_last_text, lemma_pieces_ok_init,
    lemma_pieces_ok_rest, lemma_render_last, nested, piece_ok, piece_text, pieces_ok, render,
    tag_kind_chars, tag_kind_of, Piece, TagKind,
};
use crate::text::{chars_of, string_from_chars, is_white_space, trim, trim_chars, trim_end, trim_start};

verus! {

/// The first structural problem found on a line.
#[derive(Clone, Debug, PartialEq, Eq)]
pub enum ScanError {
    /// A `[` opened while a token was already open; holds the token so far.
    BracketInsideTag(Vec<char>),
    /// A `]` with no open token.
    OrphanClose,
    /// A token that the vocabulary does not know.
    UnknownTag(Vec<char>),
    /// A closing tag with no open tag left.
    SuperfluousClose(Vec<char>),
    /// The innermost open tag and the closer that does not match it.
    Mismatch(TagKind, TagKind),
    /// A token still open at the end of the line.
    UnfinishedTag(Vec<char>),
    /// Tags still open at the end of the line, outermost first.
    Unclosed(Vec<TagKind>),
}

/// The mathematical form of a [`ScanError`].
pub enum ScanFault {
    BracketInsideTag(Seq<char>),
    OrphanClose,
    UnknownTag(Seq<char>),
    SuperfluousClose(Seq<char>),
    Mismatch(TagKind, TagKind),
    UnfinishedTag(Seq<char>),
    Unclosed(Seq<TagKind>),
}

impl View for ScanError {
    type V = ScanFault;

    open spec fn view(&self) -> ScanFault {
        match self {
            ScanError::BracketInsideTag(t) => ScanFault::BracketInsideTag(t@),
            ScanError::OrphanClose => ScanFault::OrphanClose,
            ScanError::UnknownTag(t) => ScanFault::UnknownTag(t@),
            ScanError::SuperfluousClose(t) => ScanFault::SuperfluousClose(t@),
            ScanError::Mismatch(o, c) => ScanFault::Mismatch(*o, *c),
            ScanError::UnfinishedTag(t) => ScanFault::UnfinishedTag(t@),
            ScanError::Unclosed(s) => ScanFault::Unclosed(s@),
        }
    }
}

/// The view of an optional error.
pub open spec fn fault_of(r: Option<ScanError>) -> Option<ScanFault> {
    match r {
        Some(e) => Some(e@),
        None => None,
    }
}

/// The name of a tag kind as messages print it.
pub open spec fn kind_name(k: TagKind) -> Seq<char> {
    match k {
        TagKind::Comment => "Comment"@,
        TagKind::M1 => "M1"@,
        TagKind::M2 => "M2"@,
        TagKind::P => "P"@,
        TagKind::I => "I"@,
        TagKind::C => "C"@,
        TagKind::B => "B"@,
        TagKind::Ex => "Ex"@,
        TagKind::LangID => "LangID"@,
        TagKind::MClose => "MClose"@,
        TagKind::IClose => "IClose"@,
        TagKind::ComClose => "ComClose"@,
        TagKind::PClose => "PClose"@,
        TagKind::CClose => "CClose"@,
        TagKind::BClose => "BClose"@,
        TagKind::ExClose => "ExClose"@,
        TagKind::LangIDClose => "LangIDClose"@,
        TagKind::Unknown => "Unknown"@,
    }
}

/// The names of the kinds in `s`, separated by a comma and a space.
pub open spec fn kind_list(s: Seq<TagKind>) -> Seq<char>
    decreases s.len(),
{
    if s.len() == 0 {
        Seq::empty()
    } else if s.len() == 1 {
        kind_name(s[0])
    } else {
        kind_list(s.drop_last()) + ", "@ + kind_name(s.last())
    }
}

/// The text that reports a problem.
pub open spec fn fault_message(f: ScanFault) -> Seq<char> {
    match f {
        ScanFault::BracketInsideTag(t) => "opening bracket inside tag: '"@ + t + "['"@,
        ScanFault::OrphanClose => "orphan closing bracket"@,
        ScanFault::UnknownTag(t) => "unknown tag '"@ + t + "'"@,
        ScanFault::SuperfluousClose(t) => "superfluous closing tag '"@ + t + "'"@,
        ScanFault::Mismatch(o, c) => "opening tag '"@ + kind_name(o) + "' closing '"@ + kind_name(c)
            + "'"@,
        ScanFault::UnfinishedTag(t) => "unfinished tag '"@ + t + "'"@,
        ScanFault::Unclosed(s) => "unclosed tags: ["@ + kind_list(s) + "]"@,
    }
}

fn name_of(k: TagKind) -> (r: &'static str)
    ensures
        r@ == kind_name(k),
{
    match k {
        TagKind::Comment => "Comment",
        TagKind::M1 => "M1",
        TagKind::M2 => "M2",
        TagKind::P => "P",
        TagKind::I => "I",
        TagKind::C => "C",
        TagKind::B => "B",
        TagKind::Ex => "Ex",
        TagKind::LangID => "LangID",
        TagKind::MClose => "MClose",
        TagKind::IClose => "IClose",
        TagKind::ComClose => "ComClose",
        TagKind::PClose => "PClose",
        TagKind::CClose => "CClose",
        TagKind::BClose => "BClose",
        TagKind::ExClose => "ExClose",
        TagKind::LangIDClose => "LangIDClose",
        TagKind::Unknown => "Unknown",
    }
}

fn push_literal(out: &mut Vec<char>, lit: &str)
    ensures
        final(out)@ == old(out)@ + lit@,
{
    let n = lit.unicode_len();
    let mut i: usize = 0;
    while i < n
        invariant
            n == lit@.len(),
            i <= n,
            out@ == old(out)@ + lit@.take(i as int),
        decreases n - i,
    {
        out.push(lit.get_char(i));
        i = i + 1;
        assert(out@ =~= old(out)@ + lit@.take(i as int));
    }
    assert(lit@.take(n as int) =~= lit@);
}

fn push_chars(out: &mut Vec<char>, t: &Vec<char>)
    ensures
        final(out)@ == old(out)@ + t@,
{
    let mut i: usize = 0;
    while i < t.len()
        invariant
            i <= t@.len(),
            out@ == old(out)@ + t@.take(i as int),
        decreases t@.len() - i,
    {
        out.push(t[i]);
        i = i + 1;
        assert(out@ =~= old(out)@ + t@.take(i as int));
    }
    assert(t@.take(t@.len() as int) =~= t@);
}

impl ScanError {
    /// The text that reports this problem.
    pub fn message(&self) -> (r: String)
        ensures
            r@ == fault_message(self@),
    {
        let mut out: Vec<char> = Vec::new();
        match self {
            ScanError::BracketInsideTag(t) => {
                push_literal(&mut out, "opening bracket inside tag: '");
                push_chars(&mut out, t);
                push_literal(&mut out, "['");
            },
            ScanError::OrphanClose => {
                push_literal(&mut out, "orphan closing bracket");
            },
            ScanError::UnknownTag(t) => {
                push_literal(&mut out, "unknown tag '");
                push_chars(&mut out, t);
                push_literal(&mut out, "'");
            },
            ScanError::SuperfluousClose(t) => {
                push_literal(&mut out, "superfluous closing tag '");
                push_chars(&mut out, t);
                push_literal(&mut out, "'");
            },
            ScanError::Mismatch(o, c) => {
                push_literal(&mut out, "opening tag '");
                push_literal(&mut out, name_of(*o));
                push_literal(&mut out, "' closing '");
                push_literal(&mut out, name_of(*c));
                push_literal(&mut out, "'");
            },
            ScanError::UnfinishedTag(t) => {
                push_literal(&mut out, "unfinished tag '");
                push_chars(&mut out, t);
                push_literal(&mut out, "'");
            },
            ScanError::Unclosed(s) => {
                push_literal(&mut out, "unclosed tags: [");
                let mut i: usize = 0;
                let ghost start = out@;
                assert(s@.take(0) =~= Seq::<TagKind>::empty());
                assert(out@ =~= start + kind_list(s@.take(0)));
                while i < s.len()
                    invariant
                        i <= s@.len(),
                        out@ == start + kind_list(s@.take(i as int)),
                    decreases s@.len() - i,
                {
                    let ghost before = out@;
                    if i > 0 {
                        push_literal(&mut out, ", ");
                    }
                    push_literal(&mut out, name_of(s[i]));
                    proof {
                        let pre = s@.take(i as int);
                        let cur = s@.take(i + 1);
                        assert(cur.drop_last() =~= pre);
                        assert(cur.last() == s@[i as int]);
                        if i == 0 {
                            assert(kind_list(pre) =~= Seq::<char>::empty());
                            assert(out@ =~= start + kind_list(cur));
                        } else {
                            assert(out@ =~= start + kind_list(cur));
                        }
                    }
                    i = i + 1;
                }
                assert(s@.take(s@.len() as int) =~= s@);
                push_literal(&mut out, "]");
            },
        }
        assert(out@ =~= fault_message(self@));
        string_from_chars(&out)
    }
}

/// What the scanner remembers between two characters.
pub struct ScanState {
    /// Whether a bracket token is open.
    pub in_tag: bool,
    /// The open token's text so far.
    pub tag: Seq<char>,
    /// The open tags, innermost last.
    pub stack: Seq<TagKind>,
    /// The character read before.
    pub last: char,
}

/// The state in which a line's scan begins.
pub open spec fn scan_start() -> ScanState {
    ScanState { in_tag: false, tag: Seq::empty(), stack: Seq::empty(), last: ' ' }
}

/// One character's effect on the scan: the next state, or the problem found.
pub open spec fn scan_step(st: ScanState, c: char) -> Result<ScanState, ScanFault> {
    if c == '[' {
        if st.last == '\\' {
            Ok(ScanState { last: c, ..st })
        } else if st.in_tag {
            Err(ScanFault::BracketInsideTag(st.tag))
        } else {
            Ok(ScanState { in_tag: true, tag: seq!['['], last: c, ..st })
        }
    } else if c == ']' {
        if st.last == '\\' {
            Ok(ScanState { tag: if st.in_tag { st.tag.push(c) } else { st.tag }, last: c, ..st })
        } else if !st.in_tag {
            Err(ScanFault::OrphanClose)
        } else {
            let t = st.tag.push(c);
            let k = tag_kind_of(t);
            if k == TagKind::Unknown {
                Err(ScanFault::UnknownTag(t))
            } else if !is_closing(k) {
                Ok(ScanState { in_tag: false, tag: Seq::empty(), stack: st.stack.push(k), last: c })
            } else if st.stack.len() == 0 {
                Err(ScanFault::SuperfluousClose(t))
            } else if !closes(st.stack.last(), k) {
                Err(ScanFault::Mismatch(st.stack.last(), k))
            } else {
                Ok(
                    ScanState {
                        in_tag: false,
                        tag: Seq::empty(),
                        stack: st.stack.drop_last(),
                        last: c,
                    },
                )
            }
        }
    } else {
        Ok(ScanState { tag: if st.in_tag { st.tag.push(c) } else { st.tag }, last: c, ..st })
    }
}

/// The problem left at the end of a line, if any.
pub open spec fn scan_end(st: ScanState) -> Option<ScanFault> {
    if st.in_tag {
        Some(ScanFault::UnfinishedTag(st.tag))
    } else if st.stack.len() > 0 {
        Some(ScanFault::Unclosed(st.stack))
    } else {
        None
    }
}

/// The first problem met when scanning `s` from state `st`.
pub open spec fn scan_from(s: Seq<char>, st: ScanState) -> Option<ScanFault>
    decreases s.len(),
{
    if s.len() == 0 {
        scan_end(st)
    } else {
        match scan_step(st, s[0]) {
            Err(e) => Some(e),
            Ok(next) => scan_from(s.drop_first(), next),
        }
    }
}

/// The first problem of a line, scanned without its surrounding white space.
pub open spec fn scan_line(s: Seq<char>) -> Option<ScanFault> {
    scan_from(trim(s), scan_start())
}

/// Scans the characters of a line from the start state.
pub fn scan_chars(t: &Vec<char>) -> (r: Option<ScanError>)
    ensures
        fault_of(r) == scan_from(t@, scan_start()),
{
    let n = t.len();
    let mut in_tag = false;
    let mut tag: Vec<char> = Vec::new();
    let mut stack: Vec<TagKind> = Vec::new();
    let mut last = ' ';
    let mut i: usize = 0;
    assert(t@.subrange(0, n as int) =~= t@);
    assert(tag@ =~= Seq::<char>::empty());
    assert(stack@ =~= Seq::<TagKind>::empty());
    while i < n
        invariant
            n == t@.len(),
            i <= n,
            scan_from(t@, scan_start()) == scan_from(
                t@.subrange(i as int, n as int),
                ScanState { in_tag, tag: tag@, stack: stack@, last },
            ),
        decreases n - i,
    {
        let c = t[i];
        let ghost st = ScanState { in_tag, tag: tag@, stack: stack@, last };
        let ghost rest = t@.subrange(i as int, n as int);
        assert(rest[0] == c);
        assert(rest.drop_first() =~= t@.subrange(i + 1, n as int));
        if c == '[' {
            if last == '\\' {
                last = c;
            } else if in_tag {
                return Some(ScanError::BracketInsideTag(tag));
            } else {
                tag = Vec::new();
                tag.push('[');
                assert(tag@ =~= seq!['[']);
                in_tag = true;
                last = c;
            }
        } else if c == ']' {
            if last == '\\' {
                if in_tag {
                    tag.push(c);
                }
                last = c;
            } else if !in_tag {
                return Some(ScanError::OrphanClose);
            } else {
                tag.push(c);
                let k = tag_kind_chars(tag.as_slice());
                if k == TagKind::Unknown {
                    return Some(ScanError::UnknownTag(tag));
                } else if !k.is_close() {
                    stack.push(k);
                } else if stack.len() == 0 {
                    return Some(ScanError::SuperfluousClose(tag));
                } else {
                    let open = stack.pop().unwrap();
                    if !k.closes(open) {
                        return Some(ScanError::Mismatch(open, k));
                    }
                }
                in_tag = false;
                tag = Vec::new();
                last = c;
            }
        } else {
            if in_tag {
                tag.push(c);
            }
            last = c;
        }
        assert(scan_step(st, c) == Ok::<ScanState, ScanFault>(
            ScanState { in_tag, tag: tag@, stack: stack@, last },
        ));
        i = i + 1;
    }
    assert(t@.subrange(n as int, n as int).len() == 0);
    if in_tag {
        Some(ScanError::UnfinishedTag(tag))
    } else if stack.len() > 0 {
        Some(ScanError::Unclosed(stack))
    } else {
        None
    }
}

/// Checks the bracketed tags of one line; `None` when they are well formed,
/// else the first problem met from the left.
pub fn parse_line(s: &str) -> (r: Option<ScanError>)
    ensures
        fault_of(r) == scan_line(s@),
{
    let c = chars_of(s);
    let t = trim_chars(&c);
    scan_chars(&t)
}

/// The state after scanning `s` from `st`, or the first problem met, with no
/// end-of-line check.
pub open spec fn scan_through(s: Seq<char>, st: ScanState) -> Result<ScanState, ScanFault>
    decreases s.len(),
{
    if s.len() == 0 {
        Ok(st)
    } else {
        match scan_step(st, s[0]) {
            Err(e) => Err(e),
            Ok(next) => scan_through(s.drop_first(), next),
        }
    }
}

proof fn lemma_scan_from_through(s: Seq<char>, st: ScanState)
    ensures
        scan_from(s, st) == match scan_through(s, st) {
            Err(e) => Some(e),
            Ok(end) => scan_end(end),
        },
    decreases s.len(),
{
    if s.len() > 0 {
        match scan_step(st, s[0]) {
            Err(e) => {},
            Ok(next) => lemma_scan_from_through(s.drop_first(), next),
        }
    }
}

proof fn lemma_scan_through_concat(a: Seq<char>, b: Seq<char>, st: ScanState)
    ensures
        scan_through(a + b, st) == match scan_through(a, st) {
            Err(e) => Err(e),
            Ok(mid) => scan_through(b, mid),
        },
    decreases a.len(),
{
    if a.len() == 0 {
        assert(a + b =~= b);
    } else {
        assert((a + b)[0] == a[0]);
        assert((a + b).drop_first() =~= a.drop_first() + b);
        match scan_step(st, a[0]) {
            Err(e) => {},
            Ok(next) => lemma_scan_through_concat(a.drop_first(), b, next),
        }
    }
}

proof fn lemma_scan_through_single(c: char, st: ScanState)
    ensures
        scan_through(seq![c], st) == scan_step(st, c),
{
    let one = seq![c];
    assert(one[0] == c);
    assert(one.drop_first() =~= Seq::<char>::empty());
    match scan_step(st, c) {
        Ok(n) => {
            assert(scan_through(one.drop_first(), n) == Ok::<ScanState, ScanFault>(n));
        },
        Err(e) => {},
    }
}

proof fn lemma_scan_interior(u: Seq<char>, st: ScanState)
    requires
        st.in_tag,
        forall|i: int| 0 <= i < u.len() ==> #[trigger] u[i] != '[' && u[i] != ']' && u[i] != '\\',
    ensures
        scan_through(u, st) == Ok::<ScanState, ScanFault>(
            ScanState { tag: st.tag + u, last: if u.len() == 0 { st.last } else { u.last() }, ..st },
        ),
    decreases u.len(),
{
    if u.len() == 0 {
        assert(st.tag + u =~= st.tag);
    } else {
        let c = u[0];
        let next = ScanState { tag: st.tag.push(c), last: c, ..st };
        assert(scan_step(st, c) == Ok::<ScanState, ScanFault>(next));
        let r = u.drop_first();
        assert forall|i: int| 0 <= i < r.len() implies #[trigger] r[i] != '[' && r[i] != ']' && r[i]
            != '\\' by {
            assert(r[i] == u[i + 1]);
        }
        lemma_scan_interior(r, next);
        assert(next.tag + r =~= st.tag + u);
        if r.len() > 0 {
            assert(r.last() == u.last());
        }
    }
}

/// The state after a known token, or the problem it raises.
pub open spec fn after_token(t: Seq<char>, st: ScanState) -> Result<ScanState, ScanFault> {
    let k = tag_kind_of(t);
    if !is_closing(k) {
        Ok(ScanState { in_tag: false, tag: Seq::empty(), stack: st.stack.push(k), last: ']' })
    } else if st.stack.len() == 0 {
        Err(ScanFault::SuperfluousClose(t))
    } else if !closes(st.stack.last(), k) {
        Err(ScanFault::Mismatch(st.stack.last(), k))
    } else {
        Ok(ScanState { in_tag: false, tag: Seq::empty(), stack: st.stack.drop_last(), last: ']' })
    }
}

proof fn lemma_scan_token(t: Seq<char>, st: ScanState)
    requires
        known_token(t),
        !st.in_tag,
        st.last != '\\',
    ensures
        scan_through(t, st) == after_token(t, st),
{
    let n = t.len();
    let u = t.subrange(1, n - 1);
    assert(t =~= seq!['['] + u + seq![']']);
    let open = ScanState { in_tag: true, tag: seq!['['], last: '[', ..st };
    assert(scan_step(st, '[') == Ok::<ScanState, ScanFault>(open));
    lemma_scan_through_single('[', st);
    assert forall|i: int| 0 <= i < u.len() implies #[trigger] u[i] != '[' && u[i] != ']' && u[i]
        != '\\' by {
        assert(u[i] == t[i + 1]);
    }
    lemma_scan_interior(u, open);
    let mid = ScanState { tag: seq!['['] + u, last: if u.len() == 0 { '[' } else { u.last() }, ..open };
    lemma_scan_through_concat(seq!['['], u, st);
    if u.len() > 0 {
        assert(u.last() == t[n - 2]);
    }
    assert(mid.tag.push(']') =~= t);
    assert(scan_step(mid, ']') == after_token(t, st));
    lemma_scan_through_single(']', mid);
    lemma_scan_through_concat(seq!['['] + u, seq![']'], st);
}

proof fn lemma_nested_scan(ps: Seq<Piece>, st: ScanState)
    requires
        pieces_ok(ps),
        nested(ps, st.stack),
        !st.in_tag,
        st.last == '\\' ==> ps.len() == 0 || !(ps[0] is Tag),
    ensures
        scan_from(render(ps), st) is None,
    decreases ps.len(),
{
    if ps.len() > 0 {
        lemma_pieces_ok_rest(ps);
        let rest = ps.drop_first();
        let tail = render(rest);
        match ps[0] {
            Piece::Char(c) => {
                let s = render(ps);
                assert(s =~= seq![c] + tail);
                assert(s[0] == c);
                assert(s.drop_first() =~= tail);
                let next = ScanState { last: c, ..st };
                assert(scan_step(st, c) == Ok::<ScanState, ScanFault>(next));
                lemma_nested_scan(rest, next);
            },
            Piece::Tag(t) => {
                lemma_scan_from_through(render(ps), st);
                lemma_scan_through_concat(t, tail, st);
                lemma_scan_token(t, st);
                let next = after_token(t, st)->Ok_0;
                lemma_nested_scan(rest, next);
                lemma_scan_from_through(tail, next);
            },
            Piece::Escaped(c) => {
                let mid = ScanState { last: '\\', ..st };
                let next = ScanState { last: c, ..st };
                assert(scan_step(st, '\\') == Ok::<ScanState, ScanFault>(mid));
                assert(scan_step(mid, c) == Ok::<ScanState, ScanFault>(next));
                lemma_scan_through_single('\\', st);
                lemma_scan_through_single(c, mid);
                lemma_scan_through_concat(seq!['\\'], seq![c], st);
                assert(seq!['\\'] + seq![c] =~= seq!['\\', c]);
                lemma_scan_from_through(render(ps), st);
                lemma_scan_through_concat(seq!['\\', c], tail, st);
                lemma_nested_scan(rest, next);
                lemma_scan_from_through(tail, next);
            },
        }
    } else {
        assert(render(ps).len() == 0);
    }
}

proof fn lemma_trim_start_pieces(ps: Seq<Piece>, open: Seq<TagKind>) -> (r: Seq<Piece>)
    requires
        pieces_ok(ps),
        nested(ps, open),
    ensures
        pieces_ok(r),
        nested(r, open),
        trim_start(render(ps)) == render(r),
    decreases ps.len(),
{
    if ps.len() == 0 {
        ps
    } else {
        lemma_pieces_ok_rest(ps);
        let s = render(ps);
        assert(s == piece_text(ps[0]) + render(ps.drop_first()));
        match ps[0] {
            Piece::Char(c) => {
                assert(s[0] == c);
                if is_white_space(c) {
                    assert(s.drop_first() =~= render(ps.drop_first()));
                    lemma_trim_start_pieces(ps.drop_first(), open)
                } else {
                    ps
                }
            },
            Piece::Tag(t) => {
                assert(s[0] == t[0]);
                ps
            },
            Piece::Escaped(c) => {
                assert(s[0] == '\\');
                ps
            },
        }
    }
}

proof fn lemma_trim_end_pieces(ps: Seq<Piece>, open: Seq<TagKind>) -> (r: Seq<Piece>)
    requires
        pieces_ok(ps),
        nested(ps, open),
    ensures
        pieces_ok(r),
        nested(r, open),
        trim_end(render(ps)) == render(r),
    decreases ps.len(),
{
    if ps.len() == 0 {
        ps
    } else {
        lemma_pieces_ok_init(ps);
        lemma_render_last(ps);
        let s = render(ps);
        match ps.last() {
            Piece::Char(c) => {
                assert(s.last() == c);
                if is_white_space(c) {
                    assert(s.drop_last() =~= render(ps.drop_last()));
                    lemma_nested_drop_last_text(ps, open);
                    lemma_trim_end_pieces(ps.drop_last(), open)
                } else {
                    ps
                }
            },
            Piece::Tag(t) => {
                assert(s.last() == t.last());
                ps
            },
            Piece::Escaped(c) => {
                assert(s.last() == c);
                ps
            },
        }
    }
}

/// A line made of text, escaped brackets and known tags that nest
/// correctly, with no backslash character right before a tag, scans without
/// a problem.
pub proof fn lemma_well_nested_line_scans_clean(ps: Seq<Piece>)
    requires
        pieces_ok(ps),
        nested(ps, Seq::empty()),
    ensures
        scan_from(render(ps), scan_start()) is None,
        scan_line(render(ps)) is None,
{
    lemma_nested_scan(ps, scan_start());
    let a = lemma_trim_start_pieces(ps, Seq::empty());
    let b = lemma_trim_end_pieces(a, Seq::empty());
    lemma_nested_scan(b, scan_start());
}

} // verus!
