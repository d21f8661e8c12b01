//! The repair pass: escapes every bracket token that the vocabulary does not
//! know, and leaves known tags as they are.
use vstd::prelude::*;
use crate::tags::{
    known_token, lemma_pieces_ok_rest, piece_ok, pieces_ok, render, tag_kind_chars, tag_kind_of,
    Piece, TagKind,
};
use crate::text::{chars_of, contains_char, has_char, string_from_chars};

verus! {

/// One escaped token: the token as read, and what replaced it.
#[derive(Clone, Debug, PartialEq, Eq)]
pub struct Substitution {
    pub token: String,
    pub replacement: String,
}

/// A repaired line with the substitutions made in it, in order.
#[derive(Clone, Debug, PartialEq, Eq)]
pub struct Repair {
    pub line: String,
    pub substitutions: Vec<Substitution>,
}

/// `t` without the `]` characters at its end.
pub open spec fn strip_closing(t: Seq<char>) -> Seq<char>
    decreases t.len(),
{
    if t.len() > 0 && t.last() == ']' {
        strip_closing(t.drop_last())
    } else {
        t
    }
}

/// The escaped form of an unknown token `t`: a backslash before its opening
/// bracket and before a single closing bracket.
pub open spec fn escaped(t: Seq<char>) -> Seq<char> {
    seq!['\\'] + strip_closing(t) + seq!['\\', ']']
}

/// What the repair pass remembers between two characters.
pub struct RepairState {
    pub in_tag: bool,
    pub tag: Seq<char>,
    pub last: char,
    /// The text written so far.
    pub out: Seq<char>,
    /// The substitutions made so far, as (token, replacement).
    pub subs: Seq<(Seq<char>, Seq<char>)>,
}

/// The state in which a line's repair begins.
pub open spec fn repair_start() -> RepairState {
    RepairState { in_tag: false, tag: Seq::empty(), last: ' ', out: Seq::empty(), subs: Seq::empty() }
}

/// One character's effect on the repair.
pub open spec fn repair_step(st: RepairState, c: char) -> RepairState {
    if c == '[' {
        if st.last == '\\' {
            if st.in_tag {
                RepairState { tag: st.tag.push(c), last: c, ..st }
            } else {
                RepairState { out: st.out.push(c), last: c, ..st }
            }
        } else {
            RepairState { in_tag: true, tag: seq!['['], last: c, ..st }
        }
    } else if c == ']' {
        if st.last == '\\' {
            if st.in_tag {
                RepairState { tag: st.tag.push(c), last: c, ..st }
            } else {
                RepairState { out: st.out.push(c), last: c, ..st }
            }
        } else if !st.in_tag {
            RepairState { out: st.out + seq!['\\', ']'], ..st }
        } else {
            let t = st.tag.push(c);
            if tag_kind_of(t) == TagKind::Unknown {
                RepairState {
                    in_tag: false,
                    tag: Seq::empty(),
                    last: c,
                    out: st.out + escaped(t),
                    subs: st.subs.push((t, escaped(t))),
                }
            } else {
                RepairState { in_tag: false, tag: Seq::empty(), last: c, out: st.out + t, ..st }
            }
        }
    } else if st.in_tag {
        RepairState { tag: st.tag.push(c), last: c, ..st }
    } else {
        RepairState { out: st.out.push(c), last: c, ..st }
    }
}

/// The state after repairing `s` from state `st`.
pub open spec fn repair_from(s: Seq<char>, st: RepairState) -> RepairState
    decreases s.len(),
{
    if s.len() == 0 {
        st
    } else {
        repair_from(s.drop_first(), repair_step(st, s[0]))
    }
}

/// The text a finished repair writes: a token still open is kept as read.
pub open spec fn repair_output(st: RepairState) -> Seq<char> {
    if st.in_tag {
        st.out + st.tag
    } else {
        st.out
    }
}

/// The rewritten form of a line.
pub open spec fn fixed_text(s: Seq<char>) -> Seq<char> {
    repair_output(repair_from(s, repair_start()))
}

/// The substitutions made in a line.
pub open spec fn fixed_subs(s: Seq<char>) -> Seq<(Seq<char>, Seq<char>)> {
    repair_from(s, repair_start()).subs
}

/// The view of a list of substitutions.
pub open spec fn subs_view(v: Seq<Substitution>) -> Seq<(Seq<char>, Seq<char>)> {
    v.map_values(|x: Substitution| (x.token@, x.replacement@))
}

/// The rewritten form of a line in the document pass, which leaves lines
/// without an opening bracket as they are.
pub open spec fn repaired_line(s: Seq<char>) -> Seq<char> {
    if contains_char(s, '[') {
        fixed_text(s)
    } else {
        s
    }
}

/// The substitutions that the document pass makes in a line.
pub open spec fn repaired_subs(s: Seq<char>) -> Seq<(Seq<char>, Seq<char>)> {
    if contains_char(s, '[') {
        fixed_subs(s)
    } else {
        Seq::empty()
    }
}

fn escape_token(t: &Vec<char>) -> (r: Vec<char>)
    ensures
        r@ == escaped(t@),
{
    let mut k: usize = t.len();
    assert(t@.take(k as int) =~= t@);
    while k > 0 && t[k - 1] == ']'
        invariant
            k <= t@.len(),
            strip_closing(t@) == strip_closing(t@.take(k as int)),
        decreases k,
    {
        assert(t@.take(k as int).drop_last() =~= t@.take(k - 1));
        k = k - 1;
    }
    assert(t@.take(k as int) == strip_closing(t@.take(k as int))) by {
        if k > 0 {
            assert(t@.take(k as int).last() == t@[k - 1]);
        }
    }
    let mut r: Vec<char> = Vec::new();
    r.push('\\');
    let mut i: usize = 0;
    while i < k
        invariant
            k <= t@.len(),
            i <= k,
            r@ == seq!['\\'] + t@.take(i as int),
        decreases k - i,
    {
        r.push(t[i]);
        i = i + 1;
        assert(r@ =~= seq!['\\'] + t@.take(i as int));
    }
    r.push('\\');
    r.push(']');
    assert(r@ =~= escaped(t@));
    r
}

fn append_chars(out: &mut Vec<char>, t: &Vec<char>)
    ensures
        final(out)@ == old(out)@ + t@,
{
    let mut i: usize = 0;
    while i < t.len()
        invariant
            i <= t@.len(),
            out@ == old(out)@ + t@.take(i as int),
        decreases t@.len() - i,
    {
        out.push(t[i]);
        i = i + 1;
        assert(out@ =~= old(out)@ + t@.take(i as int));
    }
    assert(t@.take(t@.len() as int) =~= t@);
}

/// Rewrites one line, escaping each bracket token that the vocabulary does
/// not know and keeping every other character and token as read.
pub fn fix_up_line(s: &str) -> (r: Repair)
    ensures
        r.line@ == fixed_text(s@),
        subs_view(r.substitutions@) == fixed_subs(s@),
{
    let t = chars_of(s);
    let n = t.len();
    let mut in_tag = false;
    let mut tag: Vec<char> = Vec::new();
    let mut last = ' ';
    let mut out: Vec<char> = Vec::new();
    let mut subs: Vec<Substitution> = Vec::new();
    let mut i: usize = 0;
    assert(t@.subrange(0, n as int) =~= t@);
    assert(tag@ =~= Seq::<char>::empty());
    assert(out@ =~= Seq::<char>::empty());
    assert(subs_view(subs@) =~= Seq::<(Seq<char>, Seq<char>)>::empty());
    while i < n
        invariant
            n == t@.len(),
            i <= n,
            t@ == s@,
            repair_from(s@, repair_start()) == repair_from(
                t@.subrange(i as int, n as int),
                RepairState { in_tag, tag: tag@, last, out: out@, subs: subs_view(subs@) },
            ),
        decreases n - i,
    {
        let c = t[i];
        let ghost st = RepairState { in_tag, tag: tag@, last, out: out@, subs: subs_view(subs@) };
        let ghost rest = t@.subrange(i as int, n as int);
        assert(rest[0] == c);
        assert(rest.drop_first() =~= t@.subrange(i + 1, n as int));
        if c == '[' {
            if last == '\\' {
                if in_tag {
                    tag.push(c);
                } else {
                    out.push(c);
                }
            } else {
                tag = Vec::new();
                tag.push('[');
                assert(tag@ =~= seq!['[']);
                in_tag = true;
            }
            last = c;
        } else if c == ']' {
            if last == '\\' {
                if in_tag {
                    tag.push(c);
                } else {
                    out.push(c);
                }
                last = c;
            } else if !in_tag {
                out.push('\\');
                out.push(']');
                assert(out@ =~= st.out + seq!['\\', ']']);
            } else {
                tag.push(c);
                if tag_kind_chars(tag.as_slice()) == TagKind::Unknown {
                    let e = escape_token(&tag);
                    append_chars(&mut out, &e);
                    let ghost before = subs@;
                    let sub = Substitution {
                        token: string_from_chars(&tag),
                        replacement: string_from_chars(&e),
                    };
                    subs.push(sub);
                    assert(subs_view(subs@) =~= subs_view(before).push((tag@, e@)));
                } else {
                    append_chars(&mut out, &tag);
                }
                in_tag = false;
                tag = Vec::new();
                assert(tag@ =~= Seq::<char>::empty());
                last = c;
            }
        } else {
            if in_tag {
                tag.push(c);
            } else {
                out.push(c);
            }
            last = c;
        }
        assert(repair_step(st, c) == RepairState {
            in_tag,
            tag: tag@,
            last,
            out: out@,
            subs: subs_view(subs@),
        });
        i = i + 1;
    }
    assert(t@.subrange(n as int, n as int).len() == 0);
    if in_tag {
        append_chars(&mut out, &tag);
    }
    Repair { line: string_from_chars(&out), substitutions: subs }
}

/// Rewrites one line as the document pass does: a line without an opening
/// bracket is kept whole.
pub fn repair_line(s: &str) -> (r: Repair)
    ensures
        r.line@ == repaired_line(s@),
        subs_view(r.substitutions@) == repaired_subs(s@),
{
    let t = chars_of(s);
    if !has_char(t.as_slice(), '[') {
        let subs: Vec<Substitution> = Vec::new();
        assert(subs_view(subs@) =~= Seq::<(Seq<char>, Seq<char>)>::empty());
        return Repair { line: string_from_chars(&t), substitutions: subs };
    }
    fix_up_line(s)
}

proof fn lemma_repair_concat(a: Seq<char>, b: Seq<char>, st: RepairState)
    ensures
        repair_from(a + b, st) == repair_from(b, repair_from(a, st)),
    decreases a.len(),
{
    if a.len() == 0 {
        assert(a + b =~= b);
    } else {
        assert((a + b)[0] == a[0]);
        assert((a + b).drop_first() =~= a.drop_first() + b);
        lemma_repair_concat(a.drop_first(), b, repair_step(st, a[0]));
    }
}

proof fn lemma_repair_single(c: char, st: RepairState)
    ensures
        repair_from(seq![c], st) == repair_step(st, c),
{
    let one = seq![c];
    assert(one[0] == c);
    assert(one.drop_first() =~= Seq::<char>::empty());
    assert(repair_from(one.drop_first(), repair_step(st, c)) == repair_step(st, c));
}

/// The character before position `i` of `u`, `first` before the start.
pub open spec fn char_before(u: Seq<char>, i: int, first: char) -> char {
    if i == 0 {
        first
    } else {
        u[i - 1]
    }
}

/// Characters that hold a bracket only right after a backslash, given the
/// character `first` read before them.
pub open spec fn replayable(u: Seq<char>, first: char) -> bool {
    forall|i: int|
        0 <= i < u.len() ==> ((#[trigger] u[i] == '[' || u[i] == ']') ==> char_before(u, i, first)
            == '\\')
}

proof fn lemma_replayable_rest(u: Seq<char>, first: char)
    requires
        replayable(u, first),
        u.len() > 0,
    ensures
        replayable(u.drop_first(), u[0]),
        (u[0] == '[' || u[0] == ']') ==> first == '\\',
{
    let r = u.drop_first();
    assert(((u[0] == '[' || u[0] == ']') ==> char_before(u, 0, first) == '\\'));
    assert forall|i: int| 0 <= i < r.len() implies ((#[trigger] r[i] == '[' || r[i] == ']') ==> char_before(r, i, u[0]) == '\\') by {
        assert(r[i] == u[i + 1]);
        assert(((u[i + 1] == '[' || u[i + 1] == ']') ==> char_before(u, i + 1, first) == '\\'));
        if i > 0 {
            assert(r[i - 1] == u[i]);
        }
    }
}

/// The last character of `u`, or `first` when `u` is empty.
pub open spec fn last_or(u: Seq<char>, first: char) -> char {
    if u.len() == 0 {
        first
    } else {
        u.last()
    }
}

proof fn lemma_replay_inside(u: Seq<char>, st: RepairState)
    requires
        st.in_tag,
        replayable(u, st.last),
    ensures
        repair_from(u, st) == (RepairState { tag: st.tag + u, last: last_or(u, st.last), ..st }),
    decreases u.len(),
{
    if u.len() == 0 {
        assert(st.tag + u =~= st.tag);
    } else {
        lemma_replayable_rest(u, st.last);
        let next = RepairState { tag: st.tag.push(u[0]), last: u[0], ..st };
        assert(repair_step(st, u[0]) == next);
        lemma_replay_inside(u.drop_first(), next);
        assert(next.tag + u.drop_first() =~= st.tag + u);
        if u.len() > 1 {
            assert(u.drop_first().last() == u.last());
        }
    }
}

proof fn lemma_replay_outside(u: Seq<char>, st: RepairState)
    requires
        !st.in_tag,
        replayable(u, st.last),
    ensures
        repair_from(u, st) == (RepairState { out: st.out + u, last: last_or(u, st.last), ..st }),
    decreases u.len(),
{
    if u.len() == 0 {
        assert(st.out + u =~= st.out);
    } else {
        lemma_replayable_rest(u, st.last);
        let next = RepairState { out: st.out.push(u[0]), last: u[0], ..st };
        assert(repair_step(st, u[0]) == next);
        lemma_replay_outside(u.drop_first(), next);
        assert(next.out + u.drop_first() =~= st.out + u);
        if u.len() > 1 {
            assert(u.drop_first().last() == u.last());
        }
    }
}

/// An open token as the repair pass holds it: `[`, then characters with a
/// bracket only right after a backslash.
pub open spec fn token_prefix(p: Seq<char>) -> bool {
    p.len() >= 1 && p[0] == '[' && replayable(p.drop_first(), '[')
}

proof fn lemma_replay_token_prefix(p: Seq<char>, st: RepairState)
    requires
        token_prefix(p),
        !st.in_tag,
        st.last != '\\',
    ensures
        repair_from(p, st) == (RepairState { in_tag: true, tag: p, last: p.last(), ..st }),
{
    let opened = RepairState { in_tag: true, tag: seq!['['], last: '[', ..st };
    assert(repair_step(st, '[') == opened);
    lemma_repair_single('[', st);
    let u = p.drop_first();
    assert(p =~= seq!['['] + u);
    lemma_repair_concat(seq!['['], u, st);
    lemma_replay_inside(u, opened);
    assert(seq!['['] + u =~= p);
    if u.len() > 0 {
        assert(u.last() == p.last());
    }
}

proof fn lemma_replay_known_token(t: Seq<char>, st: RepairState)
    requires
        t.len() >= 2,
        t.last() == ']',
        token_prefix(t.drop_last()),
        t.drop_last().last() != '\\',
        tag_kind_of(t) != TagKind::Unknown,
        !st.in_tag,
        st.last != '\\',
    ensures
        repair_from(t, st) == (RepairState {
            in_tag: false,
            tag: Seq::empty(),
            last: ']',
            out: st.out + t,
            subs: st.subs,
        }),
{
    let p = t.drop_last();
    lemma_replay_token_prefix(p, st);
    let mid = RepairState { in_tag: true, tag: p, last: p.last(), ..st };
    assert(p.push(']') =~= t);
    lemma_repair_single(']', mid);
    assert(p + seq![']'] =~= t);
    lemma_repair_concat(p, seq![']'], st);
}

/// Lines made of text characters, escaped brackets and known tags, with no
/// backslash character right before a tag, pass through the repair
/// unchanged from an outside state.
proof fn lemma_known_pieces_repair(ps: Seq<Piece>, st: RepairState)
    requires
        pieces_ok(ps),
        !st.in_tag,
        st.last == '\\' ==> ps.len() == 0 || !(ps[0] is Tag),
    ensures
        !repair_from(render(ps), st).in_tag,
        repair_from(render(ps), st).out == st.out + render(ps),
        repair_from(render(ps), st).subs == st.subs,
    decreases ps.len(),
{
    if ps.len() == 0 {
        assert(render(ps).len() == 0);
        assert(st.out + render(ps) =~= st.out);
    } else {
        lemma_pieces_ok_rest(ps);
        let rest = ps.drop_first();
        let tail = render(rest);
        match ps[0] {
            Piece::Char(c) => {
                let next = RepairState { out: st.out.push(c), last: c, ..st };
                assert(repair_step(st, c) == next);
                lemma_repair_single(c, st);
                lemma_repair_concat(seq![c], tail, st);
                lemma_known_pieces_repair(rest, next);
                assert(render(ps) =~= seq![c] + tail);
                assert(next.out + tail =~= st.out + render(ps));
            },
            Piece::Tag(t) => {
                assert(known_token(t));
                let p = t.drop_last();
                assert(replayable(p.drop_first(), '[')) by {
                    let u = p.drop_first();
                    assert forall|i: int| 0 <= i < u.len() implies ((#[trigger] u[i] == '[' || u[i] == ']') ==> char_before(u, i, '[') == '\\') by {
                        assert(u[i] == t[i + 1]);
                    }
                }
                if t.len() > 2 {
                    assert(p.last() == t[t.len() - 2]);
                }
                lemma_replay_known_token(t, st);
                let next = RepairState {
                    in_tag: false,
                    tag: Seq::empty(),
                    last: ']',
                    out: st.out + t,
                    subs: st.subs,
                };
                lemma_repair_concat(t, tail, st);
                lemma_known_pieces_repair(rest, next);
                assert(render(ps) =~= t + tail);
                assert(next.out + tail =~= st.out + render(ps));
            },
            Piece::Escaped(c) => {
                let e = seq!['\\', c];
                assert(e[0] == '\\' && e[1] == c);
                assert(replayable(e, st.last)) by {
                    assert forall|i: int| 0 <= i < e.len() implies ((#[trigger] e[i] == '[' || e[i]
                        == ']') ==> char_before(e, i, st.last) == '\\') by {
                        if i == 1 {
                            assert(char_before(e, i, st.last) == e[0]);
                        }
                    }
                }
                lemma_replay_outside(e, st);
                let next = RepairState { out: st.out + e, last: c, ..st };
                lemma_repair_concat(e, tail, st);
                lemma_known_pieces_repair(rest, next);
                assert(render(ps) =~= e + tail);
                assert(next.out + tail =~= st.out + render(ps));
            },
        }
    }
}

/// A line made of text characters, escaped brackets and known tags, with no
/// backslash character right before a tag, comes out of the repair exactly
/// as it went in, with no substitution.
pub proof fn lemma_known_tags_round_trip(ps: Seq<Piece>)
    requires
        pieces_ok(ps),
    ensures
        fixed_text(render(ps)) == render(ps),
        fixed_subs(render(ps)).len() == 0,
        repaired_line(render(ps)) == render(ps),
        repaired_subs(render(ps)).len() == 0,
{
    lemma_known_pieces_repair(ps, repair_start());
    assert(Seq::<char>::empty() + render(ps) =~= render(ps));
}

/// How a first repair's state relates to a second repair run over the first
/// one's output.
pub open spec fn replay_inv(s1: RepairState, s2: RepairState) -> bool {
    &&& s2.out == s1.out
    &&& !s2.in_tag
    &&& s1.in_tag ==> s2.last != '\\' && token_prefix(s1.tag) && s1.last == s1.tag.last()
    &&& !s1.in_tag ==> ((s1.last == '\\') == (s2.last == '\\'))
}

/// What the repair writes for character `c` in state `st`.
pub open spec fn chunk(st: RepairState, c: char) -> Seq<char> {
    let n = repair_step(st, c).out;
    n.subrange(st.out.len() as int, n.len() as int)
}

proof fn lemma_strip_prefix(t: Seq<char>)
    ensures
        strip_closing(t).len() <= t.len(),
        strip_closing(t) == t.take(strip_closing(t).len() as int),
        t.len() > 0 && t[0] != ']' ==> strip_closing(t).len() >= 1,
        t.len() > 0 && t.last() == ']' ==> strip_closing(t).len() < t.len(),
    decreases t.len(),
{
    if t.len() > 0 && t.last() == ']' {
        lemma_strip_prefix(t.drop_last());
        let k = strip_closing(t.drop_last()).len() as int;
        assert(t.drop_last().take(k) =~= t.take(k));
        if t.len() == 1 {
            assert(t[0] == t.last());
        } else {
            assert(t.drop_last()[0] == t[0]);
        }
    } else {
        assert(t.take(t.len() as int) =~= t);
    }
}

proof fn lemma_replay_escaped(t: Seq<char>, st: RepairState)
    requires
        t.len() >= 2,
        t.last() == ']',
        token_prefix(t.drop_last()),
        !st.in_tag,
    ensures
        repair_from(escaped(t), st) == (RepairState { out: st.out + escaped(t), last: ']', ..st }),
{
    let p = t.drop_last();
    lemma_strip_prefix(t);
    let k = strip_closing(t).len() as int;
    let w = t.subrange(1, k);
    let u = w + seq!['\\', ']'];
    assert(strip_closing(t) =~= seq!['['] + w);
    assert(escaped(t) =~= seq!['\\', '['] + u);
    let pu = p.drop_first();
    assert forall|i: int| 0 <= i < u.len() implies ((#[trigger] u[i] == '[' || u[i] == ']') ==> char_before(u, i, '[') == '\\') by {
        if i < w.len() {
            assert(u[i] == pu[i]);
            assert(((pu[i] == '[' || pu[i] == ']') ==> char_before(pu, i, '[') == '\\'));
            if i > 0 {
                assert(u[i - 1] == pu[i - 1]);
            }
        } else if i == w.len() {
            assert(u[i] == '\\');
        } else {
            assert(u[i] == ']');
            assert(u[i - 1] == '\\');
        }
    }
    let a = RepairState { out: st.out.push('\\'), last: '\\', ..st };
    let b = RepairState { out: a.out.push('['), last: '[', ..st };
    assert(repair_step(st, '\\') == a);
    assert(repair_step(a, '[') == b);
    lemma_repair_single('\\', st);
    lemma_repair_single('[', a);
    lemma_repair_concat(seq!['\\'], seq!['['], st);
    assert(seq!['\\'] + seq!['['] =~= seq!['\\', '[']);
    lemma_replay_outside(u, b);
    lemma_repair_concat(seq!['\\', '['], u, st);
    assert(b.out + u =~= st.out + escaped(t));
}

proof fn lemma_token_push(tag: Seq<char>, c: char)
    requires
        token_prefix(tag),
        (c == '[' || c == ']') ==> tag.last() == '\\',
    ensures
        token_prefix(tag.push(c)),
{
    let t = tag.push(c);
    let u = t.drop_first();
    let v = tag.drop_first();
    assert(u =~= v.push(c));
    assert forall|i: int| 0 <= i < u.len() implies ((#[trigger] u[i] == '[' || u[i] == ']')
        ==> char_before(u, i, '[') == '\\') by {
        if i < v.len() {
            assert(u[i] == v[i]);
            assert((v[i] == '[' || v[i] == ']') ==> char_before(v, i, '[') == '\\');
            if i > 0 {
                assert(u[i - 1] == v[i - 1]);
            }
        } else if i > 0 {
            assert(u[i - 1] == v[i - 1]);
            assert(v[i - 1] == tag[i]);
        } else {
            assert(tag.len() == 1);
        }
    }
    assert(t[0] == '[');
}

proof fn lemma_replay_step(s1: RepairState, s2: RepairState, c: char)
    requires
        replay_inv(s1, s2),
    ensures
        repair_step(s1, c).out == s1.out + chunk(s1, c),
        replay_inv(repair_step(s1, c), repair_from(chunk(s1, c), s2)),
{
    let n1 = repair_step(s1, c);
    let d = chunk(s1, c);
    if s1.in_tag && (s1.last == '\\' || (c != '[' && c != ']')) {
        assert(d.len() == 0);
        assert(n1.out =~= s1.out + d);
        assert(n1.tag == s1.tag.push(c));
        lemma_token_push(s1.tag, c);
    } else if c == '[' {
        if s1.last == '\\' {
            assert(d =~= seq!['[']);
            lemma_repair_single('[', s2);
        } else {
            assert(d.len() == 0);
            assert(n1.out =~= s1.out + d);
            assert(token_prefix(n1.tag)) by {
                assert(n1.tag.drop_first().len() == 0);
            }
        }
    } else if c == ']' {
        if s1.last == '\\' {
            assert(d =~= seq![']']);
            lemma_repair_single(']', s2);
        } else if !s1.in_tag {
            assert(d =~= seq!['\\', ']']);
            let a = RepairState { out: s2.out.push('\\'), last: '\\', ..s2 };
            lemma_repair_single('\\', s2);
            lemma_repair_single(']', a);
            lemma_repair_concat(seq!['\\'], seq![']'], s2);
            assert(seq!['\\'] + seq![']'] =~= d);
            assert(a.out.push(']') =~= s2.out + d);
        } else {
            let t = s1.tag.push(c);
            assert(t.drop_last() =~= s1.tag);
            if tag_kind_of(t) == TagKind::Unknown {
                assert(d =~= escaped(t));
                lemma_replay_escaped(t, s2);
            } else {
                assert(d =~= t);
                lemma_replay_known_token(t, s2);
            }
        }
    } else {
        assert(d =~= seq![c]);
        lemma_repair_single(c, s2);
    }
}

proof fn lemma_replay_run(s: Seq<char>, s1: RepairState)
    requires
        replay_inv(s1, repair_from(s1.out, repair_start())),
    ensures
        replay_inv(
            repair_from(s, s1),
            repair_from(repair_from(s, s1).out, repair_start()),
        ),
    decreases s.len(),
{
    if s.len() > 0 {
        let c = s[0];
        let n1 = repair_step(s1, c);
        lemma_replay_step(s1, repair_from(s1.out, repair_start()), c);
        lemma_repair_concat(s1.out, chunk(s1, c), repair_start());
        lemma_replay_run(s.drop_first(), n1);
    }
}

/// Repairing a line twice gives what repairing it once gives.
pub proof fn lemma_repair_idempotent(s: Seq<char>)
    ensures
        fixed_text(fixed_text(s)) == fixed_text(s),
        repaired_line(repaired_line(s)) == repaired_line(s),
{
    let st = repair_start();
    assert(repair_from(Seq::<char>::empty(), st) == st);
    lemma_replay_run(s, st);
    let f = repair_from(s, st);
    let s2 = repair_from(f.out, st);
    if f.in_tag {
        lemma_repair_concat(f.out, f.tag, st);
        lemma_replay_token_prefix(f.tag, s2);
    }
}

} // verus!
