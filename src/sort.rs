//! Reordering a document's entries: each entry block, from its headword to
//! the line before the next headword, moves whole; the lines before the first
//! headword stay in front.
use vstd::prelude::*;
use crate::document::texts;
use crate::lines::{line_role, line_role_chars, LineRole};
use crate::text::{
    chars_of, lemma_text_le_refl, lemma_text_le_total, lemma_text_le_trans, text_le, text_le_exec,
};

verus! {

/// The lines before the first headword, the finished entry blocks, and the
/// block being read.
pub struct Blocks {
    pub header: Seq<Seq<char>>,
    pub done: Seq<Seq<Seq<char>>>,
    pub current: Seq<Seq<char>>,
}

/// The blocks of the lines `ls`, read in order.
pub open spec fn blocks_state(ls: Seq<Seq<char>>) -> Blocks
    decreases ls.len(),
{
    if ls.len() == 0 {
        Blocks { header: Seq::empty(), done: Seq::empty(), current: Seq::empty() }
    } else {
        let b = blocks_state(ls.drop_last());
        let l = ls.last();
        if line_role(l) == LineRole::Key {
            if b.current.len() > 0 {
                Blocks { done: b.done.push(b.current), current: seq![l], ..b }
            } else {
                Blocks { current: seq![l], ..b }
            }
        } else if b.current.len() == 0 {
            Blocks { header: b.header.push(l), ..b }
        } else {
            Blocks { current: b.current.push(l), ..b }
        }
    }
}

/// The lines before the first headword.
pub open spec fn header_lines(ls: Seq<Seq<char>>) -> Seq<Seq<char>> {
    blocks_state(ls).header
}

/// The entry blocks: each a headword line and the lines up to the next one.
pub open spec fn entry_blocks(ls: Seq<Seq<char>>) -> Seq<Seq<Seq<char>>> {
    let b = blocks_state(ls);
    if b.current.len() > 0 {
        b.done.push(b.current)
    } else {
        b.done
    }
}

/// The blocks' lines one after another.
pub open spec fn join(bs: Seq<Seq<Seq<char>>>) -> Seq<Seq<char>>
    decreases bs.len(),
{
    if bs.len() == 0 {
        Seq::empty()
    } else {
        join(bs.drop_last()) + bs.last()
    }
}

/// Whether `order` lists each of `0..n` exactly once.
pub open spec fn is_permutation(order: Seq<int>, n: int) -> bool {
    &&& order.len() == n
    &&& order.no_duplicates()
    &&& forall|j: int| 0 <= j < n ==> 0 <= #[trigger] order[j] < n
}

/// The headword of a block: its first line.
pub open spec fn block_key(b: Seq<Seq<char>>) -> Seq<char> {
    b[0]
}

/// The blocks taken in the given order.
pub open spec fn reorder(bs: Seq<Seq<Seq<char>>>, order: Seq<int>) -> Seq<Seq<Seq<char>>> {
    order.map_values(|j: int| bs[j])
}

/// Whether the blocks come in order of their headwords, and blocks with equal
/// headwords in the order they had.
pub open spec fn sorted_stably(bs: Seq<Seq<Seq<char>>>, order: Seq<int>) -> bool {
    forall|a: int, b: int|
        0 <= a < b < order.len() ==> text_le(
            block_key(bs[#[trigger] order[a]]),
            block_key(bs[#[trigger] order[b]]),
        ) && (block_key(bs[order[a]]) == block_key(bs[order[b]]) ==> order[a] < order[b])
}

/// The texts of a list of blocks.
pub open spec fn block_texts(bs: Seq<Vec<String>>) -> Seq<Seq<Seq<char>>> {
    bs.map_values(|v: Vec<String>| texts(v@))
}

/// The positions as integers.
pub open spec fn as_ints(o: Seq<usize>) -> Seq<int> {
    o.map_values(|x: usize| x as int)
}

fn clone_lines(v: &Vec<String>) -> (r: Vec<String>)
    ensures
        texts(r@) == texts(v@),
{
    let mut r: Vec<String> = Vec::new();
    let mut i: usize = 0;
    while i < v.len()
        invariant
            i <= v@.len(),
            texts(r@) == texts(v@).take(i as int),
        decreases v@.len() - i,
    {
        let ghost before = r@;
        r.push(v[i].clone());
        assert(texts(r@) =~= texts(v@).take(i + 1)) by {
            assert(texts(r@) =~= texts(before).push(v@[i as int]@));
        }
        i = i + 1;
    }
    assert(texts(v@).take(v@.len() as int) =~= texts(v@));
    r
}

fn split_blocks(lines: &Vec<String>) -> (r: (Vec<String>, Vec<Vec<String>>))
    ensures
        texts(r.0@) == header_lines(texts(lines@)),
        block_texts(r.1@) == entry_blocks(texts(lines@)),
        forall|k: int| 0 <= k < r.1@.len() ==> (#[trigger] r.1@[k])@.len() > 0,
{
    let ghost ls = texts(lines@);
    let mut header: Vec<String> = Vec::new();
    let mut done: Vec<Vec<String>> = Vec::new();
    let mut cur: Vec<String> = Vec::new();
    let mut i: usize = 0;
    assert(ls.take(0) =~= Seq::<Seq<char>>::empty());
    assert(texts(header@) =~= Seq::<Seq<char>>::empty());
    assert(texts(cur@) =~= Seq::<Seq<char>>::empty());
    assert(block_texts(done@) =~= Seq::<Seq<Seq<char>>>::empty());
    while i < lines.len()
        invariant
            ls == texts(lines@),
            i <= lines@.len(),
            blocks_state(ls.take(i as int)) == (Blocks {
                header: texts(header@),
                done: block_texts(done@),
                current: texts(cur@),
            }),
            forall|k: int| 0 <= k < done@.len() ==> (#[trigger] done@[k])@.len() > 0,
        decreases lines@.len() - i,
    {
        assert(ls.take(i + 1).drop_last() =~= ls.take(i as int));
        assert(ls.take(i + 1).last() == lines@[i as int]@);
        let l = lines[i].clone();
        let c = chars_of(l.as_str());
        if line_role_chars(&c) == LineRole::Key {
            if cur.len() > 0 {
                let ghost before = done@;
                let ghost cv = texts(cur@);
                done.push(cur);
                assert(block_texts(done@) =~= block_texts(before).push(cv));
            }
            cur = Vec::new();
            cur.push(l);
            assert(texts(cur@) =~= seq![lines@[i as int]@]);
        } else if cur.len() == 0 {
            let ghost before = header@;
            header.push(l);
            assert(texts(header@) =~= texts(before).push(lines@[i as int]@));
        } else {
            let ghost before = cur@;
            cur.push(l);
            assert(texts(cur@) =~= texts(before).push(lines@[i as int]@));
        }
        i = i + 1;
    }
    assert(ls.take(lines@.len() as int) =~= ls);
    if cur.len() > 0 {
        let ghost before = done@;
        let ghost cv = texts(cur@);
        done.push(cur);
        assert(block_texts(done@) =~= block_texts(before).push(cv));
    }
    (header, done)
}

fn sorted_order(keys: &Vec<Vec<char>>) -> (order: Vec<usize>)
    ensures
        order@.len() == keys@.len(),
        as_ints(order@).no_duplicates(),
        forall|j: int| 0 <= j < order@.len() ==> (#[trigger] order@[j]) < keys@.len(),
        forall|a: int, b: int|
            0 <= a < b < order@.len() ==> text_le(
                keys@[#[trigger] order@[a] as int]@,
                keys@[#[trigger] order@[b] as int]@,
            ) && (keys@[order@[a] as int]@ == keys@[order@[b] as int]@ ==> order@[a] < order@[b]),
{
    let n = keys.len();
    let mut order: Vec<usize> = Vec::new();
    let mut i: usize = 0;
    while i < n
        invariant
            n == keys@.len(),
            i <= n,
            order@.len() == i,
            as_ints(order@).no_duplicates(),
            forall|j: int| 0 <= j < order@.len() ==> (#[trigger] order@[j]) < i,
            forall|a: int, b: int|
                0 <= a < b < order@.len() ==> text_le(
                    keys@[#[trigger] order@[a] as int]@,
                    keys@[#[trigger] order@[b] as int]@,
                ) && (keys@[order@[a] as int]@ == keys@[order@[b] as int]@ ==> order@[a]
                    < order@[b]),
        decreases n - i,
    {
        let mut p: usize = 0;
        let mut hi: usize = order.len();
        while p < hi
            invariant
                n == keys@.len(),
                i < n,
                p <= hi <= order@.len(),
                forall|j: int| 0 <= j < order@.len() ==> (#[trigger] order@[j]) < i,
                forall|a: int, b: int|
                    0 <= a < b < order@.len() ==> text_le(
                        keys@[#[trigger] order@[a] as int]@,
                        keys@[#[trigger] order@[b] as int]@,
                    ),
                forall|q: int| 0 <= q < p ==> text_le(keys@[#[trigger] order@[q] as int]@, keys@[i as int]@),
                forall|q: int|
                    hi <= q < order@.len() ==> !text_le(
                        keys@[#[trigger] order@[q] as int]@,
                        keys@[i as int]@,
                    ),
            decreases hi - p,
        {
            let mid = p + (hi - p) / 2;
            let ghost km = keys@[order@[mid as int] as int]@;
            let ghost ki = keys@[i as int]@;
            if text_le_exec(&keys[order[mid]], &keys[i]) {
                assert forall|q: int| 0 <= q < mid + 1 implies text_le(
                    keys@[#[trigger] order@[q] as int]@,
                    ki,
                ) by {
                    if q < mid {
                        lemma_text_le_trans(keys@[order@[q] as int]@, km, ki);
                    }
                }
                p = mid + 1;
            } else {
                assert forall|q: int| mid <= q < order@.len() implies !text_le(
                    keys@[#[trigger] order@[q] as int]@,
                    ki,
                ) by {
                    if q > mid && text_le(keys@[order@[q] as int]@, ki) {
                        lemma_text_le_trans(km, keys@[order@[q] as int]@, ki);
                    }
                }
                hi = mid;
            }
        }
        let ghost old_order = order@;
        let ghost ki = keys@[i as int]@;
        order.insert(p, i);
        proof {
            let o = order@;
            assert(o == old_order.insert(p as int, i));
            assert forall|j: int| 0 <= j < o.len() implies (#[trigger] o[j]) < i + 1 by {
                if j < p {
                    assert(o[j] == old_order[j]);
                } else if j > p {
                    assert(o[j] == old_order[j - 1]);
                }
            }
            assert(as_ints(o) =~= as_ints(old_order).insert(p as int, i as int));
            assert forall|x: int, y: int| 0 <= x < as_ints(o).len() && 0 <= y < as_ints(o).len() && x != y
                implies as_ints(o)[x] != as_ints(o)[y] by {
                if x != p && y != p {
                    let xo = if x < p { x } else { x - 1 };
                    let yo = if y < p { y } else { y - 1 };
                    assert(as_ints(old_order)[xo] != as_ints(old_order)[yo]);
                } else if x == p {
                    let yo = if y < p { y } else { y - 1 };
                    assert(old_order[yo] < i);
                } else {
                    let xo = if x < p { x } else { x - 1 };
                    assert(old_order[xo] < i);
                }
            }
            if p < old_order.len() {
                let kp = keys@[old_order[p as int] as int]@;
                assert(!text_le(kp, ki));
                lemma_text_le_total(kp, ki);
                lemma_text_le_refl(kp);
            }
            assert forall|a: int, b: int| 0 <= a < b < o.len() implies text_le(
                keys@[#[trigger] o[a] as int]@,
                keys@[#[trigger] o[b] as int]@,
            ) && (keys@[o[a] as int]@ == keys@[o[b] as int]@ ==> o[a] < o[b]) by {
                if b < p {
                    assert(o[a] == old_order[a] && o[b] == old_order[b]);
                } else if a > p {
                    assert(o[a] == old_order[a - 1] && o[b] == old_order[b - 1]);
                } else if a < p && b > p {
                    assert(o[a] == old_order[a] && o[b] == old_order[b - 1]);
                } else if b == p {
                    assert(o[a] == old_order[a]);
                    assert(text_le(keys@[old_order[a] as int]@, ki));
                    assert(old_order[a] < i);
                } else {
                    assert(a == p);
                    let kp = keys@[old_order[p as int] as int]@;
                    let kb = keys@[old_order[b - 1] as int]@;
                    assert(o[b] == old_order[b - 1]);
                    if b - 1 > p {
                        assert(text_le(kp, kb));
                    }
                    lemma_text_le_trans(ki, kp, kb);
                    if ki == kb {
                        if b - 1 > p {
                            assert(text_le(kp, ki));
                        }
                    }
                }
            }
        }
        i = i + 1;
    }
    order
}

fn append_lines(r: &mut Vec<String>, v: &Vec<String>)
    ensures
        texts(final(r)@) == texts(old(r)@) + texts(v@),
{
    let mut i: usize = 0;
    while i < v.len()
        invariant
            i <= v@.len(),
            texts(r@) == texts(old(r)@) + texts(v@).take(i as int),
        decreases v@.len() - i,
    {
        let ghost before = r@;
        r.push(v[i].clone());
        assert(texts(r@) =~= texts(old(r)@) + texts(v@).take(i + 1)) by {
            assert(texts(r@) =~= texts(before).push(v@[i as int]@));
        }
        i = i + 1;
    }
    assert(texts(v@).take(v@.len() as int) =~= texts(v@));
}

/// Reorders a document's entry blocks by headword, a stable sort: the lines
/// before the first headword come first, then each block whole, blocks with
/// equal headwords in the order they had.
pub fn sort_file(lines: &Vec<String>) -> (r: Vec<String>)
    ensures
        exists|order: Seq<int>|
            is_permutation(order, entry_blocks(texts(lines@)).len() as int) && sorted_stably(
                entry_blocks(texts(lines@)),
                order,
            ) && texts(r@) == header_lines(texts(lines@)) + join(
                reorder(entry_blocks(texts(lines@)), order),
            ),
{
    let (header, blocks) = split_blocks(lines);
    let ghost bv = block_texts(blocks@);
    let mut keys: Vec<Vec<char>> = Vec::new();
    let mut k: usize = 0;
    while k < blocks.len()
        invariant
            bv == block_texts(blocks@),
            k <= blocks@.len(),
            keys@.len() == k,
            forall|j: int| 0 <= j < blocks@.len() ==> (#[trigger] blocks@[j])@.len() > 0,
            forall|j: int| 0 <= j < k ==> (#[trigger] keys@[j])@ == block_key(bv[j]),
        decreases blocks@.len() - k,
    {
        assert(blocks@[k as int]@.len() > 0);
        let key = chars_of(blocks[k][0].as_str());
        assert(bv[k as int] == texts(blocks@[k as int]@));
        keys.push(key);
        k = k + 1;
    }
    let order = sorted_order(&keys);
    let ghost o = as_ints(order@);
    let mut r = clone_lines(&header);
    let mut j: usize = 0;
    assert(reorder(bv, o.take(0)) =~= Seq::<Seq<Seq<char>>>::empty());
    assert(texts(r@) =~= texts(header@) + join(reorder(bv, o.take(0))));
    while j < order.len()
        invariant
            bv == block_texts(blocks@),
            o == as_ints(order@),
            order@.len() == blocks@.len(),
            forall|q: int| 0 <= q < order@.len() ==> (#[trigger] order@[q]) < blocks@.len(),
            j <= order@.len(),
            texts(r@) == texts(header@) + join(reorder(bv, o.take(j as int))),
        decreases order@.len() - j,
    {
        let b = order[j];
        append_lines(&mut r, &blocks[b]);
        proof {
            let prev = reorder(bv, o.take(j as int));
            let next = reorder(bv, o.take(j + 1));
            assert(next =~= prev.push(bv[b as int]));
            assert(next.drop_last() =~= prev);
            assert(bv[b as int] == texts(blocks@[b as int]@));
        }
        j = j + 1;
    }
    proof {
        assert(o.take(o.len() as int) =~= o);
        let eb = entry_blocks(texts(lines@));
        assert(eb == bv);
        assert forall|q: int| 0 <= q < eb.len() implies 0 <= #[trigger] o[q] < eb.len() by {
            assert(order@[q] < blocks@.len());
        }
        assert forall|a: int, b: int| 0 <= a < b < o.len() implies text_le(
            block_key(eb[#[trigger] o[a]]),
            block_key(eb[#[trigger] o[b]]),
        ) && (block_key(eb[o[a]]) == block_key(eb[o[b]]) ==> o[a] < o[b]) by {
            assert(keys@[order@[a] as int]@ == block_key(bv[o[a]]));
            assert(keys@[order@[b] as int]@ == block_key(bv[o[b]]));
            assert(text_le(keys@[order@[a] as int]@, keys@[order@[b] as int]@));
        }
        assert(is_permutation(o, eb.len() as int));
        assert(sorted_stably(eb, o));
    }
    r
}

} // verus!
