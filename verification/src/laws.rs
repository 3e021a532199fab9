//! What holds of a collection: the shape of the heap before and after, and
//! the lemmas that carry it through the passes.

use vstd::prelude::*;
use crate::value::is_ref;
use crate::heap::{Region, addr_of, addr_in, index_of};
use crate::roots::{root_slots_spec, chain_slots, frame_slots};
use crate::collector::{
    object_fits, mark_word_spec, mark_slots_spec, mark_heap_spec, mark_roots_spec, forward_spec, update_word_spec,
    update_slots_spec, update_heap_spec, update_roots_spec, copy_words_spec, compact_spec, snek_gc_spec, Compacted,
};

verus! {

/// The objects from `obj` on lie back to back and the last one ends at `top`.
pub open spec fn tiled(mem: Seq<u64>, obj: int, top: int) -> bool
    decreases top - obj,
{
    if obj >= top {
        obj == top
    } else {
        object_fits(mem, obj, top) && tiled(mem, obj + 2 + mem[obj + 1], top)
    }
}

/// The objects from `obj` on lie back to back up to `top`, and each mark word
/// is 0 or the address that the object gets when those before it with an
/// address are laid out back to back from index `cursor`.
pub open spec fn forwarded(start: u64, mem: Seq<u64>, obj: int, top: int, cursor: int) -> bool
    decreases top - obj,
{
    if obj >= top {
        obj == top
    } else {
        &&& object_fits(mem, obj, top)
        &&& if mem[obj] == 0 {
            forwarded(start, mem, obj + 2 + mem[obj + 1], top, cursor)
        } else {
            &&& mem[obj] == addr_of(start, cursor)
            &&& forwarded(start, mem, obj + 2 + mem[obj + 1], top, cursor + 2 + mem[obj + 1])
        }
    }
}

/// The region's start and length are those of a valid region.
pub open spec fn placed(start: u64, mem: Seq<u64>) -> bool {
    start % 8 == 0 && start >= 8 && start + 8 * mem.len() <= u64::MAX
}

/// Two heaps that agree from `obj` up to `top` are tiled alike there.
pub proof fn lemma_tiled_frame(a: Seq<u64>, b: Seq<u64>, obj: int, top: int)
    requires
        0 <= obj,
        top <= a.len() == b.len(),
        forall|k: int| obj <= k < top ==> a[k] == b[k],
    ensures
        tiled(a, obj, top) == tiled(b, obj, top),
    decreases top - obj,
{
    if obj < top && object_fits(a, obj, top) {
        lemma_tiled_frame(a, b, obj + 2 + a[obj + 1], top);
    }
}

/// Two heaps that agree from `obj` up to `top` are forwarded alike there.
pub proof fn lemma_forwarded_frame(start: u64, a: Seq<u64>, b: Seq<u64>, obj: int, top: int, cursor: int)
    requires
        0 <= obj,
        top <= a.len() == b.len(),
        forall|k: int| obj <= k < top ==> a[k] == b[k],
    ensures
        forwarded(start, a, obj, top, cursor) == forwarded(start, b, obj, top, cursor),
    decreases top - obj,
{
    if obj < top && object_fits(a, obj, top) {
        let next = obj + 2 + a[obj + 1];
        if a[obj] == 0 {
            lemma_forwarded_frame(start, a, b, next, top, cursor);
        } else {
            lemma_forwarded_frame(start, a, b, next, top, cursor + 2 + a[obj + 1]);
        }
    }
}

/// A heap that is forwarded is tiled.
pub proof fn lemma_forwarded_is_tiled(start: u64, mem: Seq<u64>, obj: int, top: int, cursor: int)
    requires
        forwarded(start, mem, obj, top, cursor),
    ensures
        tiled(mem, obj, top),
    decreases top - obj,
{
    if obj < top {
        let next = obj + 2 + mem[obj + 1];
        if mem[obj] == 0 {
            lemma_forwarded_is_tiled(start, mem, next, top, cursor);
        } else {
            lemma_forwarded_is_tiled(start, mem, next, top, cursor + 2 + mem[obj + 1]);
        }
    }
}

/// The forwarding pass over a tiled heap reaches the end, leaves the heap
/// forwarded, and writes nothing below the object it starts at.
pub proof fn lemma_forward(start: u64, top: int, mem: Seq<u64>, obj: int, cursor: int, table: Map<u64, u64>)
    requires
        placed(start, mem),
        0 <= cursor <= obj <= top <= mem.len(),
        tiled(mem, obj, top),
    ensures
        forward_spec(start, top, mem, obj, cursor, table).ok,
        forward_spec(start, top, mem, obj, cursor, table).mem.len() == mem.len(),
        forwarded(start, forward_spec(start, top, mem, obj, cursor, table).mem, obj, top, cursor),
        forall|j: int| 0 <= j < obj ==> forward_spec(start, top, mem, obj, cursor, table).mem[j] == mem[j],
        forall|key: u64| table.contains_key(key) ==> forward_spec(start, top, mem, obj, cursor, table).table.contains_key(key),
        forall|h: int|
            is_header(mem, obj, top, h) && mem[h] == 1 ==> forward_spec(
                start,
                top,
                mem,
                obj,
                cursor,
                table,
            ).table.contains_key(#[trigger] ref_word(start, h)),
    decreases top - obj,
{
    if obj < top {
        let size = mem[obj + 1] as int;
        let next = obj + 2 + size;
        if mem[obj] == 1 {
            let m1 = mem.update(obj, addr_of(start, cursor) as u64);
            let t1 = table.insert((addr_of(start, obj) + 1) as u64, (addr_of(start, cursor) + 1) as u64);
            lemma_tiled_frame(mem, m1, next, top);
            lemma_forward(start, top, m1, next, cursor + 2 + size, t1);
            let f = forward_spec(start, top, m1, next, cursor + 2 + size, t1);
            assert(f == forward_spec(start, top, mem, obj, cursor, table));
            assert(f.mem[obj] == m1[obj]);
            assert(f.mem[obj + 1] == m1[obj + 1]);
            assert forall|j: int| 0 <= j < obj implies f.mem[j] == mem[j] by {
                assert(f.mem[j] == m1[j]);
            }
            assert(t1.contains_key(ref_word(start, obj)));
            assert forall|key: u64| table.contains_key(key) implies f.table.contains_key(key) by {
                assert(t1.contains_key(key));
            }
            assert forall|h: int| is_header(mem, obj, top, h) && mem[h] == 1 implies f.table.contains_key(
                #[trigger] ref_word(start, h),
            ) by {
                if h != obj {
                    lemma_is_header_frame(mem, m1, next, top, h);
                    lemma_header_bounds(mem, next, top, h);
                    assert(m1[h] == 1);
                }
            }
        } else {
            let m1 = mem.update(obj, 0);
            lemma_tiled_frame(mem, m1, next, top);
            lemma_forward(start, top, m1, next, cursor, table);
            let f = forward_spec(start, top, m1, next, cursor, table);
            assert(f == forward_spec(start, top, mem, obj, cursor, table));
            assert(f.mem[obj] == m1[obj]);
            assert(f.mem[obj + 1] == m1[obj + 1]);
            assert forall|j: int| 0 <= j < obj implies f.mem[j] == mem[j] by {
                assert(f.mem[j] == m1[j]);
            }
            assert forall|h: int| is_header(mem, obj, top, h) && mem[h] == 1 implies f.table.contains_key(
                #[trigger] ref_word(start, h),
            ) by {
                lemma_is_header_frame(mem, m1, next, top, h);
                lemma_header_bounds(mem, next, top, h);
                assert(m1[h] == 1);
            }
        }
    }
}

/// The update pass over the elements of one object writes to those elements only.
pub proof fn lemma_update_slots_frame(table: Map<u64, u64>, mem: Seq<u64>, obj: int, i: int, size: int)
    requires
        0 <= obj,
        0 <= i,
        obj + 2 + size <= mem.len(),
    ensures
        update_slots_spec(table, mem, obj, i, size).0.len() == mem.len(),
        forall|j: int|
            0 <= j < mem.len() && !(obj + 2 + i <= j < obj + 2 + size) ==> update_slots_spec(table, mem, obj, i, size).0[j]
                == mem[j],
    decreases size - i,
{
    if i < size {
        let w = update_word_spec(table, mem[obj + 2 + i]);
        if w.1 {
            let m1 = mem.update(obj + 2 + i, w.0);
            lemma_update_slots_frame(table, m1, obj, i + 1, size);
            let r = update_slots_spec(table, m1, obj, i + 1, size).0;
            assert(r == update_slots_spec(table, mem, obj, i, size).0);
            assert forall|j: int| 0 <= j < mem.len() && !(obj + 2 + i <= j < obj + 2 + size) implies r[j] == mem[j] by {
                assert(r[j] == m1[j]);
            }
        }
    }
}

/// The update pass leaves a forwarded heap forwarded, whether it reaches the
/// end or not, and writes nothing below the object it starts at.
pub proof fn lemma_update_heap(start: u64, table: Map<u64, u64>, top: int, mem: Seq<u64>, obj: int, cursor: int)
    requires
        0 <= obj <= top <= mem.len(),
        forwarded(start, mem, obj, top, cursor),
    ensures
        update_heap_spec(table, top, mem, obj).0.len() == mem.len(),
        forwarded(start, update_heap_spec(table, top, mem, obj).0, obj, top, cursor),
        forall|j: int| 0 <= j < obj ==> update_heap_spec(table, top, mem, obj).0[j] == mem[j],
    decreases top - obj,
{
    if obj < top {
        let size = mem[obj + 1] as int;
        let next = obj + 2 + size;
        let c1 = if mem[obj] == 0 { cursor } else { cursor + 2 + size };
        let (m, ok) = update_slots_spec(table, mem, obj, 0, size);
        lemma_update_slots_frame(table, mem, obj, 0, size);
        lemma_forwarded_frame(start, mem, m, next, top, c1);
        assert(m[obj] == mem[obj]);
        assert(m[obj + 1] == mem[obj + 1]);
        if ok {
            lemma_update_heap(start, table, top, m, next, c1);
            let r = update_heap_spec(table, top, m, next).0;
            assert(r[obj] == m[obj]);
            assert(r[obj + 1] == m[obj + 1]);
        }
    }
}

/// Copying a block to a lower or equal index, lowest word first, leaves the
/// block's words at the new place and every word outside the new place as it was.
pub proof fn lemma_copy_words(mem: Seq<u64>, src: int, dst: int, i: int, n: int)
    requires
        0 <= dst <= src,
        0 <= i <= n,
        src + n <= mem.len(),
    ensures
        copy_words_spec(mem, src, dst, i, n).len() == mem.len(),
        forall|j: int| dst + i <= j < dst + n ==> copy_words_spec(mem, src, dst, i, n)[j] == mem[j - dst + src],
        forall|j: int|
            0 <= j < mem.len() && !(dst + i <= j < dst + n) ==> copy_words_spec(mem, src, dst, i, n)[j] == mem[j],
    decreases n - i,
{
    if i < n {
        let m1 = mem.update(dst + i, mem[src + i]);
        lemma_copy_words(m1, src, dst, i + 1, n);
        let r = copy_words_spec(m1, src, dst, i + 1, n);
        assert(r == copy_words_spec(mem, src, dst, i, n));
        assert forall|j: int| 0 <= j < mem.len() && !(dst + i <= j < dst + n) implies r[j] == mem[j] by {
            assert(r[j] == m1[j]);
        }
        assert forall|j: int| dst + i <= j < dst + n implies r[j] == mem[j - dst + src] by {
            if j == dst + i {
                assert(r[j] == m1[j]);
            } else {
                assert(r[j] == m1[j - dst + src]);
            }
        }
    }
}

/// The compaction pass over a forwarded heap reaches the end and leaves the
/// objects that it moved back to back: from index `cursor`, where the first of
/// them goes, up to `top` less the words removed. Below `cursor` it writes nothing.
pub proof fn lemma_compact(start: u64, top: int, mem: Seq<u64>, obj: int, removed: int, cursor: int)
    requires
        placed(start, mem),
        0 <= cursor <= obj <= top <= mem.len(),
        removed == obj - cursor,
        forwarded(start, mem, obj, top, cursor),
    ensures
        compact_spec(start, top, mem, obj, removed).ok,
        compact_spec(start, top, mem, obj, removed).mem.len() == mem.len(),
        removed <= compact_spec(start, top, mem, obj, removed).removed <= top - cursor,
        tiled(compact_spec(start, top, mem, obj, removed).mem, cursor, top - compact_spec(start, top, mem, obj, removed).removed),
        forall|j: int| 0 <= j < cursor ==> compact_spec(start, top, mem, obj, removed).mem[j] == mem[j],
    decreases top - obj,
{
    if obj < top {
        let size = mem[obj + 1] as int;
        let n = size + 2;
        let mark = mem[obj];
        if mark != 0 {
            assert(index_of(start, mark as int) == cursor);
            assert(addr_in(start, mark as int, mem.len() - size - 1));
            let m1 = copy_words_spec(mem, obj, cursor, 0, n);
            lemma_copy_words(mem, obj, cursor, 0, n);
            lemma_forwarded_frame(start, mem, m1, obj + n, top, cursor + n);
            lemma_compact(start, top, m1, obj + n, removed, cursor + n);
            let c = compact_spec(start, top, m1, obj + n, removed);
            assert(c.mem[cursor + 1] == m1[cursor + 1]);
            assert(m1[cursor + 1] == mem[obj + 1]);
        } else {
            lemma_compact(start, top, mem, obj + n, removed + n, cursor);
        }
    }
}

/// `h` is the index of one of the objects met from `from` on, each ending below `top`.
pub open spec fn is_header(mem: Seq<u64>, from: int, top: int, h: int) -> bool
    decreases top - from,
{
    from < top && object_fits(mem, from, top) && (h == from || is_header(mem, from + 2 + mem[from + 1], top, h))
}

/// A word that is a reference refers to one of the objects below `top`.
pub open spec fn word_ok(start: u64, mem: Seq<u64>, top: int, w: u64) -> bool {
    is_ref(w) ==> addr_in(start, w - 1, top) && is_header(mem, 0, top, index_of(start, w - 1))
}

/// Element `i` of the object at `h`, if there is such an element, is no
/// reference or refers to one of the objects below `top`.
pub open spec fn slot_ok(start: u64, mem: Seq<u64>, top: int, h: int, i: int) -> bool {
    is_header(mem, 0, top, h) && 0 <= i < mem[h + 1] ==> word_ok(start, mem, top, mem[h + 2 + i])
}

/// The heap below `top` is a row of objects without gaps, and every reference
/// in an element refers to one of them.
pub open spec fn well_formed(start: u64, mem: Seq<u64>, top: int) -> bool {
    &&& 0 <= top <= mem.len()
    &&& tiled(mem, 0, top)
    &&& forall|h: int, i: int| #[trigger] slot_ok(start, mem, top, h, i)
}

/// Every root slot is a stack word, and every reference in one refers to one
/// of the objects below `top`.
pub open spec fn roots_ok(start: u64, mem: Seq<u64>, top: int, stack: Seq<u64>, roots: Seq<usize>) -> bool {
    forall|k: int|
        0 <= k < roots.len() ==> (#[trigger] roots[k]) < stack.len() && word_ok(start, mem, top, stack[roots[k] as int])
}

/// `cur` is `mem` with some of its objects' mark words set to 1.
pub open spec fn marks_only(mem: Seq<u64>, cur: Seq<u64>, top: int) -> bool {
    &&& cur.len() == mem.len()
    &&& forall|k: int| 0 <= k < mem.len() ==> #[trigger] cur[k] == mem[k] || (is_header(mem, 0, top, k) && cur[k] == 1)
}

/// What a reference refers to holds the mark 1.
pub open spec fn covered(start: u64, cur: Seq<u64>, w: u64) -> bool {
    is_ref(w) ==> cur[index_of(start, w - 1)] == 1
}

/// Element `j` of the object at `h` in `mem` is covered in `cur`.
pub open spec fn slot_covered(start: u64, mem: Seq<u64>, cur: Seq<u64>, h: int, j: int) -> bool {
    covered(start, cur, mem[h + 2 + j])
}

/// Every mark 1 in `cur` is a mark 1 in `next`.
pub open spec fn keeps_marks(cur: Seq<u64>, next: Seq<u64>) -> bool {
    forall|k: int| 0 <= k < cur.len() && cur[k] == 1 ==> #[trigger] next[k] == 1
}

/// The table holds an entry for a word that is a reference.
pub open spec fn resolved(table: Map<u64, u64>, w: u64) -> bool {
    is_ref(w) ==> table.contains_key(w)
}

/// The table holds an entry for element `j` of the object at `h`, if that is a reference.
pub open spec fn slot_resolved(table: Map<u64, u64>, mem: Seq<u64>, h: int, j: int) -> bool {
    resolved(table, mem[h + 2 + j])
}

/// The reference word for the object at index `h`.
pub open spec fn ref_word(start: u64, h: int) -> u64 {
    (addr_of(start, h) + 1) as u64
}

/// An object met from `from` on lies at or above `from` and ends below `top`.
pub proof fn lemma_header_bounds(mem: Seq<u64>, from: int, top: int, h: int)
    requires
        is_header(mem, from, top, h),
    ensures
        from <= h < top,
        object_fits(mem, h, top),
    decreases top - from,
{
    if h != from {
        lemma_header_bounds(mem, from + 2 + mem[from + 1], top, h);
    }
}

/// Of two objects, the higher begins at or above the end of the lower.
pub proof fn lemma_headers_apart(mem: Seq<u64>, from: int, top: int, h: int, g: int)
    requires
        is_header(mem, from, top, h),
        is_header(mem, from, top, g),
        h < g,
    ensures
        g >= h + 2 + mem[h + 1],
    decreases top - from,
{
    let next = from + 2 + mem[from + 1];
    lemma_header_bounds(mem, from, top, h);
    if h == from {
        lemma_header_bounds(mem, next, top, g);
    } else {
        lemma_headers_apart(mem, next, top, h, g);
    }
}

/// In a tiled heap, an object is followed by another object or by `top`.
pub proof fn lemma_next_header(mem: Seq<u64>, from: int, top: int, obj: int)
    requires
        tiled(mem, from, top),
        is_header(mem, from, top, obj),
    ensures
        tiled(mem, obj, top),
        obj + 2 + mem[obj + 1] == top || is_header(mem, from, top, obj + 2 + mem[obj + 1]),
    decreases top - from,
{
    let next = obj + 2 + mem[obj + 1];
    if obj != from {
        lemma_next_header(mem, from + 2 + mem[from + 1], top, obj);
    } else if next != top {
        assert(tiled(mem, next, top));
        assert(is_header(mem, next, top, next));
    }
}

/// No word inside an object, after its mark word, is the mark word of an object.
pub proof fn lemma_inside_is_no_header(mem: Seq<u64>, top: int, obj: int, k: int)
    requires
        is_header(mem, 0, top, obj),
        obj < k < obj + 2 + mem[obj + 1],
    ensures
        !is_header(mem, 0, top, k),
{
    if is_header(mem, 0, top, k) {
        lemma_headers_apart(mem, 0, top, obj, k);
    }
}

/// Marking through a word of a well-formed heap succeeds and sets mark words only.
pub proof fn lemma_mark_word(start: u64, top: int, mem: Seq<u64>, cur: Seq<u64>, w: u64)
    requires
        0 <= top <= mem.len(),
        marks_only(mem, cur, top),
        word_ok(start, mem, top, w),
    ensures
        mark_word_spec(start, top, cur, w).1,
        marks_only(mem, mark_word_spec(start, top, cur, w).0, top),
        keeps_marks(cur, mark_word_spec(start, top, cur, w).0),
        covered(start, mark_word_spec(start, top, cur, w).0, w),
{
    if is_ref(w) {
        let t = index_of(start, w - 1);
        lemma_header_bounds(mem, 0, top, t);
        let m = cur.update(t, 1);
        assert forall|k: int| 0 <= k < mem.len() implies #[trigger] m[k] == mem[k] || (is_header(mem, 0, top, k) && m[k]
            == 1) by {
            if k != t {
                assert(m[k] == cur[k]);
            }
        }
    }
}

/// Marking through the elements of an object of a well-formed heap succeeds
/// and sets mark words only.
pub proof fn lemma_mark_slots(start: u64, top: int, mem: Seq<u64>, cur: Seq<u64>, obj: int, i: int, size: int)
    requires
        well_formed(start, mem, top),
        marks_only(mem, cur, top),
        is_header(mem, 0, top, obj),
        size == mem[obj + 1],
        0 <= i,
    ensures
        mark_slots_spec(start, top, cur, obj, i, size).1,
        marks_only(mem, mark_slots_spec(start, top, cur, obj, i, size).0, top),
        keeps_marks(cur, mark_slots_spec(start, top, cur, obj, i, size).0),
        forall|j: int|
            i <= j < size ==> #[trigger] slot_covered(start, mem, mark_slots_spec(start, top, cur, obj, i, size).0, obj, j),
    decreases size - i,
{
    if i < size {
        lemma_header_bounds(mem, 0, top, obj);
        lemma_inside_is_no_header(mem, top, obj, obj + 2 + i);
        assert(cur[obj + 2 + i] == mem[obj + 2 + i]);
        assert(slot_ok(start, mem, top, obj, i));
        let w = cur[obj + 2 + i];
        lemma_mark_word(start, top, mem, cur, w);
        let m = mark_word_spec(start, top, cur, w).0;
        lemma_mark_slots(start, top, mem, m, obj, i + 1, size);
        let r = mark_slots_spec(start, top, m, obj, i + 1, size).0;
        assert(r == mark_slots_spec(start, top, cur, obj, i, size).0);
        if is_ref(w) {
            lemma_header_bounds(mem, 0, top, index_of(start, w - 1));
        }
        assert(slot_covered(start, mem, r, obj, i));
        assert forall|j: int| i <= j < size implies #[trigger] slot_covered(start, mem, r, obj, j) by {
            if j > i {
                assert(slot_covered(start, mem, r, obj, j));
            }
        }
    }
}

/// Marking through the objects of a well-formed heap succeeds and sets mark
/// words only.
pub proof fn lemma_mark_heap(start: u64, top: int, mem: Seq<u64>, cur: Seq<u64>, obj: int)
    requires
        well_formed(start, mem, top),
        marks_only(mem, cur, top),
        obj == top || is_header(mem, 0, top, obj),
    ensures
        mark_heap_spec(start, top, cur, obj).1,
        marks_only(mem, mark_heap_spec(start, top, cur, obj).0, top),
        keeps_marks(cur, mark_heap_spec(start, top, cur, obj).0),
        forall|h: int, j: int|
            is_header(mem, obj, top, h) && 0 <= j < mem[h + 1] ==> #[trigger] slot_covered(
                start,
                mem,
                mark_heap_spec(start, top, cur, obj).0,
                h,
                j,
            ),
    decreases top - obj,
{
    if obj != top {
        lemma_header_bounds(mem, 0, top, obj);
        lemma_inside_is_no_header(mem, top, obj, obj + 1);
        assert(cur[obj + 1] == mem[obj + 1]);
        let size = mem[obj + 1] as int;
        lemma_mark_slots(start, top, mem, cur, obj, 0, size);
        lemma_next_header(mem, 0, top, obj);
        let m = mark_slots_spec(start, top, cur, obj, 0, size).0;
        lemma_mark_heap(start, top, mem, m, obj + 2 + size);
        let r = mark_heap_spec(start, top, m, obj + 2 + size).0;
        assert(r == mark_heap_spec(start, top, cur, obj).0);
        assert forall|h: int, j: int| is_header(mem, obj, top, h) && 0 <= j < mem[h + 1] implies #[trigger] slot_covered(
            start,
            mem,
            r,
            h,
            j,
        ) by {
            if h == obj {
                assert(slot_covered(start, mem, m, obj, j));
                assert(slot_ok(start, mem, top, obj, j));
                let w = mem[obj + 2 + j];
                if is_ref(w) {
                    lemma_header_bounds(mem, 0, top, index_of(start, w - 1));
                }
            } else {
                assert(is_header(mem, obj + 2 + size, top, h));
            }
        }
    }
}

/// Marking through the roots of a well-formed heap succeeds and sets mark
/// words only.
pub proof fn lemma_mark_roots(start: u64, top: int, mem: Seq<u64>, cur: Seq<u64>, stack: Seq<u64>, roots: Seq<usize>, k: int)
    requires
        0 <= top <= mem.len(),
        roots_ok(start, mem, top, stack, roots),
        marks_only(mem, cur, top),
        0 <= k,
    ensures
        mark_roots_spec(start, top, cur, stack, roots, k).1,
        marks_only(mem, mark_roots_spec(start, top, cur, stack, roots, k).0, top),
        keeps_marks(cur, mark_roots_spec(start, top, cur, stack, roots, k).0),
        forall|j: int|
            k <= j < roots.len() ==> covered(
                start,
                mark_roots_spec(start, top, cur, stack, roots, k).0,
                stack[(#[trigger] roots[j]) as int],
            ),
    decreases roots.len() - k,
{
    if k < roots.len() {
        let w = stack[roots[k] as int];
        lemma_mark_word(start, top, mem, cur, w);
        let m = mark_word_spec(start, top, cur, w).0;
        lemma_mark_roots(start, top, mem, m, stack, roots, k + 1);
        let r = mark_roots_spec(start, top, m, stack, roots, k + 1).0;
        assert(r == mark_roots_spec(start, top, cur, stack, roots, k).0);
        if is_ref(w) {
            lemma_header_bounds(mem, 0, top, index_of(start, w - 1));
        }
        assert(covered(start, r, w));
    }
}

/// No root slot occurs twice.
pub open spec fn distinct(roots: Seq<usize>) -> bool {
    forall|i: int, j: int| 0 <= i < j < roots.len() ==> roots[i] != roots[j]
}

/// The heap after the two marking passes of a collection.
pub open spec fn after_marking(heap: Region, heap_ptr: u64, stack: Region, stack_base: u64, fp: u64, sp: u64) -> Seq<u64> {
    let top = index_of(heap.start, heap_ptr as int);
    let roots = root_slots_spec(stack, stack_base, fp, sp).unwrap();
    mark_roots_spec(heap.start, top, mark_heap_spec(heap.start, top, heap.words@, 0).0, stack.words@, roots, 0).0
}

/// The table from old to new references that a collection builds.
pub open spec fn collection_table(heap: Region, heap_ptr: u64, stack: Region, stack_base: u64, fp: u64, sp: u64) -> Map<
    u64,
    u64,
> {
    let top = index_of(heap.start, heap_ptr as int);
    forward_spec(heap.start, top, after_marking(heap, heap_ptr, stack, stack_base, fp, sp), 0, 0, Map::empty()).table
}

/// The heap after the marking, forwarding and update passes of a collection.
pub open spec fn after_update(heap: Region, heap_ptr: u64, stack: Region, stack_base: u64, fp: u64, sp: u64) -> Seq<u64> {
    let top = index_of(heap.start, heap_ptr as int);
    let fwd = forward_spec(heap.start, top, after_marking(heap, heap_ptr, stack, stack_base, fp, sp), 0, 0, Map::empty());
    update_heap_spec(fwd.table, top, fwd.mem, 0).0
}

/// A heap and roots that a collection is meant for: the heap pointer is an
/// address in the heap or its end, the frames can be walked, and every
/// reference in an element or a root refers to an object below the heap pointer.
pub open spec fn collectable(heap: Region, heap_ptr: u64, stack: Region, stack_base: u64, fp: u64, sp: u64) -> bool {
    &&& heap.valid()
    &&& stack.valid()
    &&& addr_in(heap.start, heap_ptr as int, heap.words@.len() as int + 1)
    &&& stack.words@.len() <= usize::MAX
    &&& root_slots_spec(stack, stack_base, fp, sp).is_some()
    &&& well_formed(heap.start, heap.words@, index_of(heap.start, heap_ptr as int))
    &&& roots_ok(
        heap.start,
        heap.words@,
        index_of(heap.start, heap_ptr as int),
        stack.words@,
        root_slots_spec(stack, stack_base, fp, sp).unwrap(),
    )
}

/// What the passes of a collection leave, one after the other, on a heap and
/// roots that a collection is meant for.
pub proof fn lemma_passes(heap: Region, heap_ptr: u64, stack: Region, stack_base: u64, fp: u64, sp: u64)
    requires
        collectable(heap, heap_ptr, stack, stack_base, fp, sp),
    ensures
        ({
            let start = heap.start;
            let mem = heap.words@;
            let top = index_of(start, heap_ptr as int);
            let roots = root_slots_spec(stack, stack_base, fp, sp).unwrap();
            let rooted = after_marking(heap, heap_ptr, stack, stack_base, fp, sp);
            let fwd = forward_spec(start, top, rooted, 0, 0, Map::empty());
            let updated = after_update(heap, heap_ptr, stack, stack_base, fp, sp);
            let moved = compact_spec(start, top, updated, 0, 0);
            let out = snek_gc_spec(heap, heap_ptr, stack, stack_base, fp, sp);
            &&& heap_ptr == start + 8 * top
            &&& marks_only(mem, rooted, top)
            &&& tiled(rooted, 0, top)
            &&& headers_only(mem, fwd.mem, top)
            &&& tiled(fwd.mem, 0, top)
            &&& update_heap_spec(fwd.table, top, fwd.mem, 0).1
            &&& forwarded(start, updated, 0, top, 0)
            &&& updated.len() == mem.len()
            &&& out.heap == moved.mem
            &&& out.stack == update_roots_spec(fwd.table, stack.words@, roots, 0).0
            &&& out.result == Ok::<u64, crate::collector::GcError>((heap_ptr - 8 * moved.removed) as u64)
            &&& 0 <= moved.removed <= top
            &&& forall|h: int, j: int|
                is_header(mem, 0, top, h) && 0 <= j < mem[h + 1] ==> #[trigger] slot_covered(start, mem, rooted, h, j)
            &&& forall|j: int| 0 <= j < roots.len() ==> covered(start, rooted, stack.words@[(#[trigger] roots[j]) as int])
        }),
{
    let start = heap.start;
    let mem = heap.words@;
    let top = index_of(start, heap_ptr as int);
    let roots = root_slots_spec(stack, stack_base, fp, sp).unwrap();
    assert(heap_ptr == start + 8 * top);
    assert(marks_only(mem, mem, top));
    if top > 0 {
        assert(is_header(mem, 0, top, 0));
    }
    lemma_mark_heap(start, top, mem, mem, 0);
    let marked = mark_heap_spec(start, top, mem, 0);
    lemma_mark_roots(start, top, mem, marked.0, stack.words@, roots, 0);
    let rooted = mark_roots_spec(start, top, marked.0, stack.words@, roots, 0);
    assert(headers_only(mem, rooted.0, top));
    lemma_tiling_same(mem, rooted.0, top, 0);
    lemma_forward(start, top, rooted.0, 0, 0, Map::empty());
    lemma_forward_writes_marks(start, top, rooted.0, 0, 0, Map::empty());
    let fwd = forward_spec(start, top, rooted.0, 0, 0, Map::empty());
    assert forall|k: int| 0 <= k < mem.len() implies #[trigger] fwd.mem[k] == mem[k] || is_header(mem, 0, top, k) by {
        if fwd.mem[k] != rooted.0[k] {
            lemma_headers_same(mem, rooted.0, top, 0, k);
        }
    }
    assert(headers_only(mem, fwd.mem, top));
    lemma_forwarded_is_tiled(start, fwd.mem, 0, top, 0);
    assert forall|w: u64| is_ref(w) && word_ok(start, mem, top, w) && covered(start, rooted.0, w) implies resolved(
        fwd.table,
        w,
    ) by {
        let t = index_of(start, w - 1);
        lemma_headers_same(mem, rooted.0, top, 0, t);
        assert(ref_word(start, t) == w);
    }
    assert forall|h: int, j: int| is_header(fwd.mem, 0, top, h) && 0 <= j < fwd.mem[h + 1] implies #[trigger] slot_resolved(
        fwd.table,
        fwd.mem,
        h,
        j,
    ) by {
        lemma_headers_same(mem, fwd.mem, top, 0, h);
        lemma_header_bounds(mem, 0, top, h);
        lemma_inside_is_no_header(mem, top, h, h + 1);
        assert(fwd.mem[h + 1] == mem[h + 1]);
        lemma_inside_is_no_header(mem, top, h, h + 2 + j);
        assert(fwd.mem[h + 2 + j] == mem[h + 2 + j]);
        let w = mem[h + 2 + j];
        assert(slot_ok(start, mem, top, h, j));
        assert(slot_covered(start, mem, marked.0, h, j));
        if is_ref(w) {
            lemma_header_bounds(mem, 0, top, index_of(start, w - 1));
            assert(covered(start, rooted.0, w));
        }
    }
    lemma_update_heap_ok(fwd.table, top, fwd.mem, 0);
    lemma_update_heap(start, fwd.table, top, fwd.mem, 0, 0);
    let updated = update_heap_spec(fwd.table, top, fwd.mem, 0);
    assert forall|j: int| 0 <= j < roots.len() implies resolved(fwd.table, stack.words@[(#[trigger] roots[j]) as int]) by {
        let w = stack.words@[roots[j] as int];
        assert(word_ok(start, mem, top, w));
        assert(covered(start, rooted.0, w));
    }
    lemma_root_slots_distinct(stack, stack_base, fp, sp);
    lemma_update_roots_ok(fwd.table, stack.words@, roots, 0);
    lemma_compact(start, top, updated.0, 0, 0, 0);
    let moved = compact_spec(start, top, updated.0, 0, 0);
    assert(rooted.0 == after_marking(heap, heap_ptr, stack, stack_base, fp, sp));
    assert(updated.0 == after_update(heap, heap_ptr, stack, stack_base, fp, sp));
    let out = snek_gc_spec(heap, heap_ptr, stack, stack_base, fp, sp);
    assert(out.result.is_ok());
    assert forall|h: int, j: int| is_header(mem, 0, top, h) && 0 <= j < mem[h + 1] implies #[trigger] slot_covered(
        start,
        mem,
        rooted.0,
        h,
        j,
    ) by {
        assert(slot_covered(start, mem, marked.0, h, j));
        assert(slot_ok(start, mem, top, h, j));
        let w = mem[h + 2 + j];
        if is_ref(w) {
            lemma_header_bounds(mem, 0, top, index_of(start, w - 1));
        }
    }
}

/// Compaction leaves no gaps, and a collection of a well-formed heap
/// succeeds: where every reference in an element or a root refers to an object
/// below the heap pointer, the collection returns a heap pointer, not above the
/// old one, and the objects below it lie back to back from the start of the
/// heap, the last one ending at it.
pub proof fn lemma_collection_is_dense(heap: Region, heap_ptr: u64, stack: Region, stack_base: u64, fp: u64, sp: u64)
    requires
        collectable(heap, heap_ptr, stack, stack_base, fp, sp),
    ensures
        ({
            let out = snek_gc_spec(heap, heap_ptr, stack, stack_base, fp, sp);
            &&& out.heap.len() == heap.words@.len()
            &&& out.result.is_ok()
            &&& heap.start <= out.result.unwrap() <= heap_ptr
            &&& tiled(out.heap, 0, index_of(heap.start, out.result.unwrap() as int))
        }),
{
    lemma_passes(heap, heap_ptr, stack, stack_base, fp, sp);
    let start = heap.start;
    let top = index_of(start, heap_ptr as int);
    let updated = after_update(heap, heap_ptr, stack, stack_base, fp, sp);
    lemma_compact(start, top, updated, 0, 0, 0);
    let moved = compact_spec(start, top, updated, 0, 0);
    let out = snek_gc_spec(heap, heap_ptr, stack, stack_base, fp, sp);
    let p = out.result.unwrap();
    assert(p == heap_ptr - 8 * moved.removed);
    assert(index_of(start, p as int) == top - moved.removed);
}

/// The object that the reference `w` refers to is there after the collection:
/// the collection succeeds, its table holds a new reference for `w`, the new
/// reference refers to an object of the collected heap, and that object has
/// the size of the old one and, element by element, what the table makes of
/// the old one's elements.
pub open spec fn survives(heap: Region, heap_ptr: u64, stack: Region, stack_base: u64, fp: u64, sp: u64, w: u64) -> bool {
    let out = snek_gc_spec(heap, heap_ptr, stack, stack_base, fp, sp);
    let table = collection_table(heap, heap_ptr, stack, stack_base, fp, sp);
    let old_at = index_of(heap.start, w - 1);
    let new_at = index_of(heap.start, table[w] - 1);
    &&& out.result.is_ok()
    &&& table.contains_key(w)
    &&& table[w] == addr_of(heap.start, new_at) + 1
    &&& is_header(out.heap, 0, index_of(heap.start, out.result.unwrap() as int), new_at)
    &&& out.heap[new_at + 1] == heap.words@[old_at + 1]
    &&& forall|j: int|
        0 <= j < heap.words@[old_at + 1] ==> #[trigger] out.heap[new_at + 2 + j] == update_word_spec(
            table,
            heap.words@[old_at + 2 + j],
        ).0
}

/// What a reference refers to survives a collection: where a reference `w`
/// in an element or a root refers to an object and the marking passes have
/// marked that object, the table holds a new reference for `w`, the new
/// reference refers to an object of the collected heap, and that object has
/// the size of the old one and, element by element, what the table makes of
/// the old one's elements.
pub proof fn lemma_marked_object_survives(heap: Region, heap_ptr: u64, stack: Region, stack_base: u64, fp: u64, sp: u64, w: u64)
    requires
        collectable(heap, heap_ptr, stack, stack_base, fp, sp),
        is_ref(w),
        word_ok(heap.start, heap.words@, index_of(heap.start, heap_ptr as int), w),
        covered(heap.start, after_marking(heap, heap_ptr, stack, stack_base, fp, sp), w),
    ensures
        survives(heap, heap_ptr, stack, stack_base, fp, sp, w),
{
    lemma_passes(heap, heap_ptr, stack, stack_base, fp, sp);
    let start = heap.start;
    let mem = heap.words@;
    let top = index_of(start, heap_ptr as int);
    let rooted = after_marking(heap, heap_ptr, stack, stack_base, fp, sp);
    let fwd = forward_spec(start, top, rooted, 0, 0, Map::empty());
    let table = fwd.table;
    let updated = after_update(heap, heap_ptr, stack, stack_base, fp, sp);
    let moved = compact_spec(start, top, updated, 0, 0);
    let out = snek_gc_spec(heap, heap_ptr, stack, stack_base, fp, sp);
    let t = index_of(start, w - 1);
    assert(ref_word(start, t) == w);
    lemma_header_bounds(mem, 0, top, t);
    assert(headers_only(mem, rooted, top));
    lemma_headers_same(mem, rooted, top, 0, t);
    lemma_forward_table(start, top, rooted, 0, 0, Map::empty(), t);
    lemma_forward(start, top, rooted, 0, 0, Map::empty());
    lemma_headers_same(mem, fwd.mem, top, 0, t);
    lemma_update_heap_values(table, top, fwd.mem, 0, t);
    lemma_compact(start, top, updated, 0, 0, 0);
    lemma_compact_moves(start, top, updated, 0, 0, 0, t);
    let g = index_of(start, updated[t] as int);
    assert(table[w] - 1 == updated[t]);
    lemma_forwarded_mark(start, updated, 0, top, 0, t);
    assert(index_of(start, out.result.unwrap() as int) == top - moved.removed);
    lemma_inside_is_no_header(mem, top, t, t + 1);
    assert(fwd.mem[t + 1] == mem[t + 1]);
    assert(out.heap[g + 1] == updated[t + 1]);
    assert forall|j: int| 0 <= j < mem[t + 1] implies #[trigger] out.heap[g + 2 + j] == update_word_spec(
        table,
        mem[t + 2 + j],
    ).0 by {
        lemma_inside_is_no_header(mem, top, t, t + 2 + j);
        assert(fwd.mem[t + 2 + j] == mem[t + 2 + j]);
        assert(slot_updated(table, fwd.mem, updated, t, j));
        assert(out.heap[g + (2 + j)] == updated[t + (2 + j)]);
    }
}

/// The mark word of an object of a forwarded heap that is not 0 is the address
/// of a word at or above the cursor.
pub proof fn lemma_forwarded_mark(start: u64, mem: Seq<u64>, obj: int, top: int, cursor: int, h: int)
    requires
        0 <= cursor,
        forwarded(start, mem, obj, top, cursor),
        is_header(mem, obj, top, h),
        mem[h] != 0,
    ensures
        mem[h] == addr_of(start, index_of(start, mem[h] as int)),
        index_of(start, mem[h] as int) >= cursor,
    decreases top - obj,
{
    if h != obj {
        if mem[obj] == 0 {
            lemma_forwarded_mark(start, mem, obj + 2 + mem[obj + 1], top, cursor, h);
        } else {
            lemma_forwarded_mark(start, mem, obj + 2 + mem[obj + 1], top, cursor + 2 + mem[obj + 1], h);
        }
    }
}

/// Two heaps that agree from `from` up to `top` hold the same objects there.
pub proof fn lemma_is_header_frame(a: Seq<u64>, b: Seq<u64>, from: int, top: int, h: int)
    requires
        0 <= from,
        top <= a.len() == b.len(),
        forall|k: int| from <= k < top ==> a[k] == b[k],
    ensures
        is_header(a, from, top, h) == is_header(b, from, top, h),
    decreases top - from,
{
    if from < top && object_fits(a, from, top) {
        lemma_is_header_frame(a, b, from + 2 + a[from + 1], top, h);
    }
}

/// `cur` is `mem` but for the mark words of its objects.
pub open spec fn headers_only(mem: Seq<u64>, cur: Seq<u64>, top: int) -> bool {
    &&& cur.len() == mem.len()
    &&& forall|k: int| 0 <= k < mem.len() ==> #[trigger] cur[k] == mem[k] || is_header(mem, 0, top, k)
}

/// A heap holds the same objects whatever its mark words hold.
pub proof fn lemma_headers_same(mem: Seq<u64>, cur: Seq<u64>, top: int, from: int, h: int)
    requires
        0 <= top <= mem.len(),
        tiled(mem, 0, top),
        headers_only(mem, cur, top),
        from == top || is_header(mem, 0, top, from),
    ensures
        is_header(cur, from, top, h) == is_header(mem, from, top, h),
    decreases top - from,
{
    if from != top {
        lemma_header_bounds(mem, 0, top, from);
        lemma_inside_is_no_header(mem, top, from, from + 1);
        assert(cur[from + 1] == mem[from + 1]);
        lemma_next_header(mem, 0, top, from);
        lemma_headers_same(mem, cur, top, from + 2 + mem[from + 1], h);
    }
}

/// A tiled heap is tiled whatever its mark words hold.
pub proof fn lemma_tiling_same(mem: Seq<u64>, cur: Seq<u64>, top: int, obj: int)
    requires
        0 <= top <= mem.len(),
        tiled(mem, 0, top),
        headers_only(mem, cur, top),
        obj == top || is_header(mem, 0, top, obj),
    ensures
        tiled(cur, obj, top),
    decreases top - obj,
{
    if obj != top {
        lemma_header_bounds(mem, 0, top, obj);
        lemma_inside_is_no_header(mem, top, obj, obj + 1);
        assert(cur[obj + 1] == mem[obj + 1]);
        lemma_next_header(mem, 0, top, obj);
        lemma_tiling_same(mem, cur, top, obj + 2 + mem[obj + 1]);
        assert(object_fits(cur, obj, top));
        assert(tiled(cur, obj + 2 + cur[obj + 1], top));
    }
}

/// The forwarding pass writes to the mark words of the objects it walks over only.
pub proof fn lemma_forward_writes_marks(start: u64, top: int, mem: Seq<u64>, obj: int, cursor: int, table: Map<u64, u64>)
    requires
        0 <= obj <= top <= mem.len(),
        tiled(mem, obj, top),
    ensures
        forall|k: int|
            0 <= k < mem.len() ==> #[trigger] forward_spec(start, top, mem, obj, cursor, table).mem[k] == mem[k] || is_header(
                mem,
                obj,
                top,
                k,
            ),
    decreases top - obj,
{
    if obj < top {
        let size = mem[obj + 1] as int;
        let next = obj + 2 + size;
        let v = if mem[obj] == 1 { addr_of(start, cursor) as u64 } else { 0u64 };
        let c1 = if mem[obj] == 1 { cursor + 2 + size } else { cursor };
        let t1 = if mem[obj] == 1 {
            table.insert((addr_of(start, obj) + 1) as u64, (addr_of(start, cursor) + 1) as u64)
        } else {
            table
        };
        let m1 = mem.update(obj, v);
        lemma_tiled_frame(mem, m1, next, top);
        lemma_forward_writes_marks(start, top, m1, next, c1, t1);
        let f = forward_spec(start, top, m1, next, c1, t1);
        assert(f == forward_spec(start, top, mem, obj, cursor, table));
        assert forall|k: int| 0 <= k < mem.len() implies #[trigger] f.mem[k] == mem[k] || is_header(mem, obj, top, k) by {
            if k != obj && f.mem[k] != m1[k] {
                lemma_is_header_frame(mem, m1, next, top, k);
            }
        }
    }
}

/// The update pass over elements that the table resolves reaches the end, and
/// leaves in each element what the table gives for it.
pub proof fn lemma_update_slots_ok(table: Map<u64, u64>, mem: Seq<u64>, obj: int, i: int, size: int)
    requires
        0 <= obj,
        0 <= i,
        obj + 2 + size <= mem.len(),
        forall|j: int| i <= j < size ==> #[trigger] slot_resolved(table, mem, obj, j),
    ensures
        update_slots_spec(table, mem, obj, i, size).1,
    decreases size - i,
{
    if i < size {
        assert(slot_resolved(table, mem, obj, i));
        let w = update_word_spec(table, mem[obj + 2 + i]);
        let m1 = mem.update(obj + 2 + i, w.0);
        assert forall|j: int| i + 1 <= j < size implies #[trigger] slot_resolved(table, m1, obj, j) by {
            assert(slot_resolved(table, mem, obj, j));
        }
        lemma_update_slots_ok(table, m1, obj, i + 1, size);
    }
}

/// The update pass over a tiled heap whose every element the table resolves
/// reaches the end.
pub proof fn lemma_update_heap_ok(table: Map<u64, u64>, top: int, mem: Seq<u64>, obj: int)
    requires
        0 <= obj <= top <= mem.len(),
        tiled(mem, obj, top),
        forall|h: int, j: int| is_header(mem, obj, top, h) && 0 <= j < mem[h + 1] ==> #[trigger] slot_resolved(table, mem, h, j),
    ensures
        update_heap_spec(table, top, mem, obj).1,
    decreases top - obj,
{
    if obj < top {
        let size = mem[obj + 1] as int;
        let next = obj + 2 + size;
        assert(is_header(mem, obj, top, obj));
        lemma_update_slots_ok(table, mem, obj, 0, size);
        lemma_update_slots_frame(table, mem, obj, 0, size);
        let m = update_slots_spec(table, mem, obj, 0, size).0;
        lemma_tiled_frame(mem, m, next, top);
        assert forall|h: int, j: int| is_header(m, next, top, h) && 0 <= j < m[h + 1] implies #[trigger] slot_resolved(
            table,
            m,
            h,
            j,
        ) by {
            lemma_is_header_frame(mem, m, next, top, h);
            lemma_header_bounds(m, next, top, h);
            assert(is_header(mem, obj, top, h));
            assert(slot_resolved(table, mem, h, j));
        }
        lemma_update_heap_ok(table, top, m, next);
    }
}

/// The update pass over root slots that differ from one another and whose
/// words the table resolves reaches the end.
pub proof fn lemma_update_roots_ok(table: Map<u64, u64>, stack: Seq<u64>, roots: Seq<usize>, k: int)
    requires
        0 <= k,
        forall|j: int| 0 <= j < roots.len() ==> (#[trigger] roots[j]) < stack.len(),
        forall|i: int, j: int| 0 <= i < j < roots.len() ==> roots[i] != roots[j],
        forall|j: int| k <= j < roots.len() ==> resolved(table, stack[(#[trigger] roots[j]) as int]),
    ensures
        update_roots_spec(table, stack, roots, k).1,
    decreases roots.len() - k,
{
    if k < roots.len() {
        let w = update_word_spec(table, stack[roots[k] as int]);
        let s1 = stack.update(roots[k] as int, w.0);
        assert forall|j: int| k + 1 <= j < roots.len() implies resolved(table, s1[(#[trigger] roots[j]) as int]) by {
            assert(roots[k] != roots[j]);
        }
        lemma_update_roots_ok(table, s1, roots, k + 1);
    }
}

/// The forwarding pass keeps the table's entries for the objects below the
/// one it starts at.
pub proof fn lemma_forward_keeps_entries(start: u64, top: int, mem: Seq<u64>, obj: int, cursor: int, table: Map<u64, u64>)
    requires
        placed(start, mem),
        0 <= cursor <= obj <= top <= mem.len(),
        tiled(mem, obj, top),
    ensures
        forall|key: u64|
            table.contains_key(key) && key < addr_of(start, obj) + 1 ==> forward_spec(start, top, mem, obj, cursor, table).table[key]
                == table[key],
    decreases top - obj,
{
    if obj < top {
        let size = mem[obj + 1] as int;
        let next = obj + 2 + size;
        let v = if mem[obj] == 1 { addr_of(start, cursor) as u64 } else { 0u64 };
        let c1 = if mem[obj] == 1 { cursor + 2 + size } else { cursor };
        let t1 = if mem[obj] == 1 {
            table.insert((addr_of(start, obj) + 1) as u64, (addr_of(start, cursor) + 1) as u64)
        } else {
            table
        };
        let m1 = mem.update(obj, v);
        lemma_tiled_frame(mem, m1, next, top);
        lemma_forward_keeps_entries(start, top, m1, next, c1, t1);
        let f = forward_spec(start, top, m1, next, c1, t1);
        assert(f == forward_spec(start, top, mem, obj, cursor, table));
        assert forall|key: u64| table.contains_key(key) && key < addr_of(start, obj) + 1 implies f.table[key] == table[key] by {
            assert(t1.contains_key(key));
            assert(t1[key] == table[key]);
        }
    }
}

/// The forwarding pass enters a marked object in the table under its
/// reference word, with the reference word of the address that it wrote into
/// the object's mark word.
pub proof fn lemma_forward_table(start: u64, top: int, mem: Seq<u64>, obj: int, cursor: int, table: Map<u64, u64>, h: int)
    requires
        placed(start, mem),
        0 <= cursor <= obj <= top <= mem.len(),
        tiled(mem, obj, top),
        is_header(mem, obj, top, h),
        mem[h] == 1,
    ensures
        forward_spec(start, top, mem, obj, cursor, table).mem[h] != 0,
        forward_spec(start, top, mem, obj, cursor, table).table.contains_key(ref_word(start, h)),
        forward_spec(start, top, mem, obj, cursor, table).table[ref_word(start, h)] == forward_spec(
            start,
            top,
            mem,
            obj,
            cursor,
            table,
        ).mem[h] + 1,
    decreases top - obj,
{
    let size = mem[obj + 1] as int;
    let next = obj + 2 + size;
    let v = if mem[obj] == 1 { addr_of(start, cursor) as u64 } else { 0u64 };
    let c1 = if mem[obj] == 1 { cursor + 2 + size } else { cursor };
    let t1 = if mem[obj] == 1 {
        table.insert((addr_of(start, obj) + 1) as u64, (addr_of(start, cursor) + 1) as u64)
    } else {
        table
    };
    let m1 = mem.update(obj, v);
    lemma_tiled_frame(mem, m1, next, top);
    lemma_forward(start, top, m1, next, c1, t1);
    lemma_forward_keeps_entries(start, top, m1, next, c1, t1);
    let f = forward_spec(start, top, m1, next, c1, t1);
    assert(f == forward_spec(start, top, mem, obj, cursor, table));
    assert(f.mem[obj] == m1[obj]);
    if h == obj {
        let key = ref_word(start, obj);
        assert(key == start + 8 * obj + 1);
        assert(t1.contains_key(key));
        assert(key < addr_of(start, next) + 1);
        assert(f.table[key] == t1[key]);
        assert(t1[key] == addr_of(start, cursor) + 1);
        assert(f.mem[obj] == addr_of(start, cursor));
    } else {
        assert(is_header(mem, next, top, h));
        lemma_is_header_frame(mem, m1, next, top, h);
        lemma_header_bounds(mem, next, top, h);
        assert(m1[h] == 1);
        lemma_forward_table(start, top, m1, next, c1, t1, h);
    }
}

/// Element `j` of the object at `h` holds in `after` what the table makes of
/// what it held in `before`.
pub open spec fn slot_updated(table: Map<u64, u64>, before: Seq<u64>, after: Seq<u64>, h: int, j: int) -> bool {
    after[h + 2 + j] == update_word_spec(table, before[h + 2 + j]).0
}

/// The update pass over the elements of one object leaves in each what the
/// table makes of it.
pub proof fn lemma_update_slots_values(table: Map<u64, u64>, mem: Seq<u64>, obj: int, i: int, size: int)
    requires
        0 <= obj,
        0 <= i,
        obj + 2 + size <= mem.len(),
        update_slots_spec(table, mem, obj, i, size).1,
    ensures
        forall|j: int|
            i <= j < size ==> #[trigger] slot_updated(table, mem, update_slots_spec(table, mem, obj, i, size).0, obj, j),
    decreases size - i,
{
    if i < size {
        let w = update_word_spec(table, mem[obj + 2 + i]);
        let m1 = mem.update(obj + 2 + i, w.0);
        lemma_update_slots_values(table, m1, obj, i + 1, size);
        lemma_update_slots_frame(table, m1, obj, i + 1, size);
        let r = update_slots_spec(table, m1, obj, i + 1, size).0;
        assert(r == update_slots_spec(table, mem, obj, i, size).0);
        assert forall|j: int| i <= j < size implies #[trigger] slot_updated(table, mem, r, obj, j) by {
            if j == i {
                assert(r[obj + 2 + i] == m1[obj + 2 + i]);
            } else {
                assert(slot_updated(table, m1, r, obj, j));
            }
        }
    }
}

/// The object at `h` is in `after` what it is in `before`, but that each
/// element holds what the table makes of it.
pub open spec fn object_updated(table: Map<u64, u64>, before: Seq<u64>, after: Seq<u64>, top: int, h: int) -> bool {
    &&& is_header(after, 0, top, h)
    &&& after[h] == before[h]
    &&& after[h + 1] == before[h + 1]
    &&& forall|j: int| 0 <= j < before[h + 1] ==> #[trigger] slot_updated(table, before, after, h, j)
}

/// The update pass that reaches the end keeps every object, its mark word and
/// its size, and leaves in each element what the table makes of it.
pub proof fn lemma_update_heap_values(table: Map<u64, u64>, top: int, mem: Seq<u64>, obj: int, h: int)
    requires
        0 <= obj <= top <= mem.len(),
        tiled(mem, obj, top),
        update_heap_spec(table, top, mem, obj).1,
        is_header(mem, obj, top, h),
    ensures
        is_header(update_heap_spec(table, top, mem, obj).0, obj, top, h),
        update_heap_spec(table, top, mem, obj).0[h] == mem[h],
        update_heap_spec(table, top, mem, obj).0[h + 1] == mem[h + 1],
        forall|j: int|
            0 <= j < mem[h + 1] ==> #[trigger] slot_updated(table, mem, update_heap_spec(table, top, mem, obj).0, h, j),
    decreases top - obj,
{
    let size = mem[obj + 1] as int;
    let next = obj + 2 + size;
    let m = update_slots_spec(table, mem, obj, 0, size).0;
    lemma_update_slots_frame(table, mem, obj, 0, size);
    lemma_update_slots_values(table, mem, obj, 0, size);
    lemma_tiled_frame(mem, m, next, top);
    let r = update_heap_spec(table, top, m, next).0;
    assert(r == update_heap_spec(table, top, mem, obj).0);
    lemma_update_heap_frame(table, top, m, next);
    assert(r[obj + 1] == m[obj + 1]);
    assert(r[obj] == m[obj]);
    if h == obj {
        assert forall|j: int| 0 <= j < mem[h + 1] implies #[trigger] slot_updated(table, mem, r, h, j) by {
            assert(slot_updated(table, mem, m, obj, j));
            assert(r[obj + 2 + j] == m[obj + 2 + j]);
        }
    } else {
        lemma_is_header_frame(mem, m, next, top, h);
        lemma_header_bounds(mem, next, top, h);
        lemma_update_heap_values(table, top, m, next, h);
        assert forall|j: int| 0 <= j < mem[h + 1] implies #[trigger] slot_updated(table, mem, r, h, j) by {
            assert(slot_updated(table, m, r, h, j));
        }
    }
}

/// The update pass writes nothing below the object it starts at, and keeps
/// the heap's length.
pub proof fn lemma_update_heap_frame(table: Map<u64, u64>, top: int, mem: Seq<u64>, obj: int)
    requires
        0 <= obj <= top <= mem.len(),
    ensures
        update_heap_spec(table, top, mem, obj).0.len() == mem.len(),
        forall|j: int| 0 <= j < obj ==> update_heap_spec(table, top, mem, obj).0[j] == mem[j],
    decreases top - obj,
{
    if obj < top && object_fits(mem, obj, top) {
        let size = mem[obj + 1] as int;
        let (m, ok) = update_slots_spec(table, mem, obj, 0, size);
        lemma_update_slots_frame(table, mem, obj, 0, size);
        if ok {
            lemma_update_heap_frame(table, top, m, obj + 2 + size);
            let r = update_heap_spec(table, top, m, obj + 2 + size).0;
            assert forall|j: int| 0 <= j < obj implies r[j] == mem[j] by {
                assert(r[j] == m[j]);
            }
        }
    }
}

/// The words of the object at `h` in `before` stand in `after` at the address
/// that the object's mark word holds.
pub open spec fn object_moved(start: u64, before: Seq<u64>, after: Seq<u64>, h: int) -> bool {
    forall|k: int|
        0 <= k < 2 + before[h + 1] ==> #[trigger] after[index_of(start, before[h] as int) + k] == before[h + k]
}

/// The compaction pass leaves every object whose mark word holds an address
/// at that address, as an object of the compacted heap, word for word.
pub proof fn lemma_compact_moves(start: u64, top: int, mem: Seq<u64>, obj: int, removed: int, cursor: int, h: int)
    requires
        placed(start, mem),
        0 <= cursor <= obj <= top <= mem.len(),
        removed == obj - cursor,
        forwarded(start, mem, obj, top, cursor),
        is_header(mem, obj, top, h),
        mem[h] != 0,
    ensures
        cursor <= index_of(start, mem[h] as int),
        is_header(
            compact_spec(start, top, mem, obj, removed).mem,
            cursor,
            top - compact_spec(start, top, mem, obj, removed).removed,
            index_of(start, mem[h] as int),
        ),
        object_moved(start, mem, compact_spec(start, top, mem, obj, removed).mem, h),
    decreases top - obj,
{
    let size = mem[obj + 1] as int;
    let n = size + 2;
    let c = compact_spec(start, top, mem, obj, removed);
    lemma_compact(start, top, mem, obj, removed, cursor);
    if mem[obj] != 0 {
        assert(index_of(start, mem[obj] as int) == cursor);
        let m1 = copy_words_spec(mem, obj, cursor, 0, n);
        lemma_copy_words(mem, obj, cursor, 0, n);
        lemma_forwarded_frame(start, mem, m1, obj + n, top, cursor + n);
        lemma_compact(start, top, m1, obj + n, removed, cursor + n);
        assert(c == compact_spec(start, top, m1, obj + n, removed));
        assert(c.mem[cursor + 1] == m1[cursor + 1]);
        assert(m1[cursor + 1] == mem[obj + 1]);
        assert(object_fits(c.mem, cursor, top - c.removed));
        if h == obj {
            assert forall|k: int| 0 <= k < 2 + mem[h + 1] implies #[trigger] c.mem[index_of(start, mem[h] as int) + k]
                == mem[h + k] by {
                assert(c.mem[cursor + k] == m1[cursor + k]);
            }
        } else {
            lemma_is_header_frame(mem, m1, obj + n, top, h);
            lemma_header_bounds(mem, obj + n, top, h);
            lemma_compact_moves(start, top, m1, obj + n, removed, cursor + n, h);
            assert(m1[h] == mem[h]);
            assert(m1[h + 1] == mem[h + 1]);
            assert forall|k: int| 0 <= k < 2 + mem[h + 1] implies #[trigger] c.mem[index_of(start, mem[h] as int) + k]
                == mem[h + k] by {
                assert(m1[h + k] == mem[h + k]);
            }
        }
    } else {
        lemma_compact_moves(start, top, mem, obj + n, removed + n, cursor, h);
    }
}

/// The forwarding pass leaves an address in the mark words of marked objects only.
pub proof fn lemma_forward_marked(start: u64, top: int, mem: Seq<u64>, obj: int, cursor: int, table: Map<u64, u64>, h: int)
    requires
        placed(start, mem),
        0 <= cursor <= obj <= top <= mem.len(),
        tiled(mem, obj, top),
        is_header(mem, obj, top, h),
        forward_spec(start, top, mem, obj, cursor, table).mem[h] != 0,
    ensures
        mem[h] == 1,
    decreases top - obj,
{
    let size = mem[obj + 1] as int;
    let next = obj + 2 + size;
    let v = if mem[obj] == 1 { addr_of(start, cursor) as u64 } else { 0u64 };
    let c1 = if mem[obj] == 1 { cursor + 2 + size } else { cursor };
    let t1 = if mem[obj] == 1 {
        table.insert((addr_of(start, obj) + 1) as u64, (addr_of(start, cursor) + 1) as u64)
    } else {
        table
    };
    let m1 = mem.update(obj, v);
    lemma_tiled_frame(mem, m1, next, top);
    lemma_forward(start, top, m1, next, c1, t1);
    let f = forward_spec(start, top, m1, next, c1, t1);
    assert(f == forward_spec(start, top, mem, obj, cursor, table));
    assert(f.mem[obj] == m1[obj]);
    if h != obj {
        lemma_is_header_frame(mem, m1, next, top, h);
        lemma_header_bounds(mem, next, top, h);
        lemma_forward_marked(start, top, m1, next, c1, t1, h);
        assert(m1[h] == mem[h]);
    }
}

/// The update pass that reaches the end keeps the objects as they are.
pub proof fn lemma_update_keeps_headers(table: Map<u64, u64>, top: int, mem: Seq<u64>, obj: int, h: int)
    requires
        0 <= obj <= top <= mem.len(),
        tiled(mem, obj, top),
        update_heap_spec(table, top, mem, obj).1,
    ensures
        is_header(update_heap_spec(table, top, mem, obj).0, obj, top, h) == is_header(mem, obj, top, h),
    decreases top - obj,
{
    if obj < top {
        let size = mem[obj + 1] as int;
        let next = obj + 2 + size;
        let m = update_slots_spec(table, mem, obj, 0, size).0;
        lemma_update_slots_frame(table, mem, obj, 0, size);
        lemma_tiled_frame(mem, m, next, top);
        let r = update_heap_spec(table, top, m, next).0;
        assert(r == update_heap_spec(table, top, mem, obj).0);
        lemma_update_heap_frame(table, top, m, next);
        assert(r[obj + 1] == m[obj + 1]);
        lemma_is_header_frame(mem, m, next, top, h);
        lemma_update_keeps_headers(table, top, m, next, h);
    }
}

/// The object at `h` has an address in its mark word, that of index `g`.
pub open spec fn lands_at(start: u64, mem: Seq<u64>, obj: int, top: int, h: int, g: int) -> bool {
    is_header(mem, obj, top, h) && mem[h] != 0 && index_of(start, mem[h] as int) == g
}

/// Every object of the compacted heap is an object that the pass moved there.
pub proof fn lemma_compact_onto(start: u64, top: int, mem: Seq<u64>, obj: int, removed: int, cursor: int, g: int)
    requires
        placed(start, mem),
        0 <= cursor <= obj <= top <= mem.len(),
        removed == obj - cursor,
        forwarded(start, mem, obj, top, cursor),
        is_header(
            compact_spec(start, top, mem, obj, removed).mem,
            cursor,
            top - compact_spec(start, top, mem, obj, removed).removed,
            g,
        ),
    ensures
        exists|h: int| #[trigger] lands_at(start, mem, obj, top, h, g),
    decreases top - obj,
{
    let c = compact_spec(start, top, mem, obj, removed);
    lemma_compact(start, top, mem, obj, removed, cursor);
    if obj < top {
        let size = mem[obj + 1] as int;
        let n = size + 2;
        if mem[obj] != 0 {
            assert(index_of(start, mem[obj] as int) == cursor);
            let m1 = copy_words_spec(mem, obj, cursor, 0, n);
            lemma_copy_words(mem, obj, cursor, 0, n);
            lemma_forwarded_frame(start, mem, m1, obj + n, top, cursor + n);
            lemma_compact(start, top, m1, obj + n, removed, cursor + n);
            assert(c == compact_spec(start, top, m1, obj + n, removed));
            assert(c.mem[cursor + 1] == m1[cursor + 1]);
            assert(m1[cursor + 1] == mem[obj + 1]);
            if g == cursor {
                assert(lands_at(start, mem, obj, top, obj, g));
            } else {
                assert(is_header(c.mem, cursor + n, top - c.removed, g));
                lemma_compact_onto(start, top, m1, obj + n, removed, cursor + n, g);
                let h = choose|h: int| #[trigger] lands_at(start, m1, obj + n, top, h, g);
                lemma_is_header_frame(mem, m1, obj + n, top, h);
                lemma_header_bounds(m1, obj + n, top, h);
                assert(m1[h] == mem[h]);
                assert(lands_at(start, mem, obj, top, h, g));
            }
        } else {
            lemma_compact_onto(start, top, mem, obj + n, removed + n, cursor, g);
            let h = choose|h: int| #[trigger] lands_at(start, mem, obj + n, top, h, g);
            assert(lands_at(start, mem, obj, top, h, g));
        }
    }
}

/// The update pass over distinct root slots that reaches the end leaves in
/// each what the table makes of it.
pub proof fn lemma_update_roots_values(table: Map<u64, u64>, stack: Seq<u64>, roots: Seq<usize>, k: int)
    requires
        0 <= k,
        forall|j: int| 0 <= j < roots.len() ==> (#[trigger] roots[j]) < stack.len(),
        distinct(roots),
        update_roots_spec(table, stack, roots, k).1,
    ensures
        update_roots_spec(table, stack, roots, k).0.len() == stack.len(),
        forall|j: int|
            k <= j < roots.len() ==> update_roots_spec(table, stack, roots, k).0[(#[trigger] roots[j]) as int] == update_word_spec(
                table,
                stack[roots[j] as int],
            ).0,
        forall|j: int|
            0 <= j < k ==> update_roots_spec(table, stack, roots, k).0[(#[trigger] roots[j]) as int] == stack[roots[j] as int],
    decreases roots.len() - k,
{
    if k < roots.len() {
        let w = update_word_spec(table, stack[roots[k] as int]);
        let s1 = stack.update(roots[k] as int, w.0);
        lemma_update_roots_values(table, s1, roots, k + 1);
        let r = update_roots_spec(table, s1, roots, k + 1).0;
        assert(r == update_roots_spec(table, stack, roots, k).0);
        assert forall|j: int| k <= j < roots.len() implies r[(#[trigger] roots[j]) as int] == update_word_spec(
            table,
            stack[roots[j] as int],
        ).0 by {
            if j == k {
                assert(r[roots[k] as int] == s1[roots[k] as int]);
            } else {
                assert(roots[k] != roots[j]);
                assert(s1[roots[j] as int] == stack[roots[j] as int]);
            }
        }
        assert forall|j: int| 0 <= j < k implies r[(#[trigger] roots[j]) as int] == stack[roots[j] as int] by {
            assert(roots[j] != roots[k]);
            assert(r[roots[j] as int] == s1[roots[j] as int]);
        }
    }
}

/// What the table makes of a reference that referred to a marked object, or
/// of a word that is no reference, is no reference or refers to an object of
/// the collected heap.
pub proof fn lemma_updated_word_ok(heap: Region, heap_ptr: u64, stack: Region, stack_base: u64, fp: u64, sp: u64, e: u64)
    requires
        collectable(heap, heap_ptr, stack, stack_base, fp, sp),
        word_ok(heap.start, heap.words@, index_of(heap.start, heap_ptr as int), e),
        covered(heap.start, after_marking(heap, heap_ptr, stack, stack_base, fp, sp), e),
    ensures
        ({
            let out = snek_gc_spec(heap, heap_ptr, stack, stack_base, fp, sp);
            let table = collection_table(heap, heap_ptr, stack, stack_base, fp, sp);
            &&& out.result.is_ok()
            &&& update_word_spec(table, e).1
            &&& word_ok(
                heap.start,
                out.heap,
                index_of(heap.start, out.result.unwrap() as int),
                update_word_spec(table, e).0,
            )
        }),
{
    lemma_passes(heap, heap_ptr, stack, stack_base, fp, sp);
    if is_ref(e) {
        lemma_marked_object_survives(heap, heap_ptr, stack, stack_base, fp, sp, e);
        let out = snek_gc_spec(heap, heap_ptr, stack, stack_base, fp, sp);
        let table = collection_table(heap, heap_ptr, stack, stack_base, fp, sp);
        let new_top = index_of(heap.start, out.result.unwrap() as int);
        let new_at = index_of(heap.start, table[e] - 1);
        lemma_header_bounds(out.heap, 0, new_top, new_at);
    }
}

/// A collection keeps a heap well formed, and leaves no reference dangling:
/// after the collection of a well-formed heap, the objects below the new heap
/// pointer lie back to back, and every reference in an element of one of them
/// or in a root slot refers to one of them.
pub proof fn lemma_collection_keeps_well_formed(heap: Region, heap_ptr: u64, stack: Region, stack_base: u64, fp: u64, sp: u64)
    requires
        collectable(heap, heap_ptr, stack, stack_base, fp, sp),
    ensures
        ({
            let out = snek_gc_spec(heap, heap_ptr, stack, stack_base, fp, sp);
            let new_top = index_of(heap.start, out.result.unwrap() as int);
            &&& out.result.is_ok()
            &&& well_formed(heap.start, out.heap, new_top)
            &&& roots_ok(heap.start, out.heap, new_top, out.stack, root_slots_spec(stack, stack_base, fp, sp).unwrap())
        }),
{
    lemma_passes(heap, heap_ptr, stack, stack_base, fp, sp);
    lemma_collection_is_dense(heap, heap_ptr, stack, stack_base, fp, sp);
    let start = heap.start;
    let mem = heap.words@;
    let top = index_of(start, heap_ptr as int);
    let roots = root_slots_spec(stack, stack_base, fp, sp).unwrap();
    let rooted = after_marking(heap, heap_ptr, stack, stack_base, fp, sp);
    let fwd = forward_spec(start, top, rooted, 0, 0, Map::empty());
    let table = fwd.table;
    let updated = after_update(heap, heap_ptr, stack, stack_base, fp, sp);
    let moved = compact_spec(start, top, updated, 0, 0);
    let out = snek_gc_spec(heap, heap_ptr, stack, stack_base, fp, sp);
    let new_top = index_of(start, out.result.unwrap() as int);
    lemma_compact(start, top, updated, 0, 0, 0);
    assert(new_top == top - moved.removed);
    assert(headers_only(mem, rooted, top));
    assert forall|g: int, j: int| #[trigger] slot_ok(start, out.heap, new_top, g, j) by {
        if is_header(out.heap, 0, new_top, g) && 0 <= j < out.heap[g + 1] {
            lemma_compact_onto(start, top, updated, 0, 0, 0, g);
            let h = choose|h: int| #[trigger] lands_at(start, updated, 0, top, h, g);
            lemma_update_keeps_headers(table, top, fwd.mem, 0, h);
            lemma_headers_same(mem, fwd.mem, top, 0, h);
            lemma_headers_same(mem, rooted, top, 0, h);
            lemma_update_heap_values(table, top, fwd.mem, 0, h);
            lemma_forward_marked(start, top, rooted, 0, 0, Map::empty(), h);
            lemma_forward_table(start, top, rooted, 0, 0, Map::empty(), h);
            lemma_header_bounds(mem, 0, top, h);
            let wh = ref_word(start, h);
            assert(wh == start + 8 * h + 1);
            assert(index_of(start, wh - 1) == h);
            lemma_marked_object_survives(heap, heap_ptr, stack, stack_base, fp, sp, wh);
            assert(index_of(start, table[wh] - 1) == g);
            let e = mem[h + 2 + j];
            assert(out.heap[g + 2 + j] == update_word_spec(table, e).0);
            assert(slot_ok(start, mem, top, h, j));
            assert(slot_covered(start, mem, rooted, h, j));
            lemma_updated_word_ok(heap, heap_ptr, stack, stack_base, fp, sp, e);
        }
    }
    lemma_root_slots_distinct(stack, stack_base, fp, sp);
    lemma_update_roots_values(table, stack.words@, roots, 0);
    assert forall|k: int| 0 <= k < roots.len() implies (#[trigger] roots[k]) < out.stack.len() && word_ok(
        start,
        out.heap,
        new_top,
        out.stack[roots[k] as int],
    ) by {
        let e = stack.words@[roots[k] as int];
        lemma_updated_word_ok(heap, heap_ptr, stack, stack_base, fp, sp, e);
    }
}

/// Reachability is preserved, one step at a time. The object that a
/// reference in an element of an object refers to is, after the collection, an
/// object of the collected heap at the place that the table gives for the
/// reference, with the size it had and with what the table makes of each of
/// its elements. As this holds of the references among those elements too,
/// it holds along every chain of references.
pub proof fn lemma_element_target_survives(heap: Region, heap_ptr: u64, stack: Region, stack_base: u64, fp: u64, sp: u64, h: int, j: int)
    requires
        collectable(heap, heap_ptr, stack, stack_base, fp, sp),
        is_header(heap.words@, 0, index_of(heap.start, heap_ptr as int), h),
        0 <= j < heap.words@[h + 1],
        is_ref(heap.words@[h + 2 + j]),
    ensures
        survives(heap, heap_ptr, stack, stack_base, fp, sp, heap.words@[h + 2 + j]),
{
    lemma_passes(heap, heap_ptr, stack, stack_base, fp, sp);
    let top = index_of(heap.start, heap_ptr as int);
    assert(slot_ok(heap.start, heap.words@, top, h, j));
    assert(slot_covered(heap.start, heap.words@, after_marking(heap, heap_ptr, stack, stack_base, fp, sp), h, j));
    lemma_marked_object_survives(heap, heap_ptr, stack, stack_base, fp, sp, heap.words@[h + 2 + j]);
}

/// The object that a reference in a root slot refers to is, after the
/// collection, an object of the collected heap at the place that the table
/// gives for the reference, with the size it had and with what the table makes
/// of each of its elements; and the root slot holds the new reference.
pub proof fn lemma_root_target_survives(heap: Region, heap_ptr: u64, stack: Region, stack_base: u64, fp: u64, sp: u64, k: int)
    requires
        collectable(heap, heap_ptr, stack, stack_base, fp, sp),
        0 <= k < root_slots_spec(stack, stack_base, fp, sp).unwrap().len(),
        is_ref(stack.words@[root_slots_spec(stack, stack_base, fp, sp).unwrap()[k] as int]),
    ensures
        survives(
            heap,
            heap_ptr,
            stack,
            stack_base,
            fp,
            sp,
            stack.words@[root_slots_spec(stack, stack_base, fp, sp).unwrap()[k] as int],
        ),
        snek_gc_spec(heap, heap_ptr, stack, stack_base, fp, sp).stack[root_slots_spec(
            stack,
            stack_base,
            fp,
            sp,
        ).unwrap()[k] as int] == collection_table(heap, heap_ptr, stack, stack_base, fp, sp)[stack.words@[root_slots_spec(
            stack,
            stack_base,
            fp,
            sp,
        ).unwrap()[k] as int]],
{
    lemma_passes(heap, heap_ptr, stack, stack_base, fp, sp);
    let roots = root_slots_spec(stack, stack_base, fp, sp).unwrap();
    let table = collection_table(heap, heap_ptr, stack, stack_base, fp, sp);
    let w = stack.words@[roots[k] as int];
    assert(roots[k] < stack.words@.len());
    lemma_marked_object_survives(heap, heap_ptr, stack, stack_base, fp, sp, w);
    lemma_root_slots_distinct(stack, stack_base, fp, sp);
    lemma_update_roots_values(table, stack.words@, roots, 0);
}

/// The objects from `obj` on lie back to back up to `top`, and each holds its
/// own address in its mark word.
pub open spec fn in_place(start: u64, mem: Seq<u64>, obj: int, top: int) -> bool
    decreases top - obj,
{
    if obj >= top {
        obj == top
    } else {
        &&& object_fits(mem, obj, top)
        &&& mem[obj] == addr_of(start, obj)
        &&& in_place(start, mem, obj + 2 + mem[obj + 1], top)
    }
}

/// An object of a heap that is in place holds its own address in its mark word.
pub proof fn lemma_in_place_at(start: u64, mem: Seq<u64>, obj: int, top: int, h: int)
    requires
        in_place(start, mem, obj, top),
        is_header(mem, obj, top, h),
    ensures
        mem[h] == addr_of(start, h),
    decreases top - obj,
{
    if h != obj {
        lemma_in_place_at(start, mem, obj + 2 + mem[obj + 1], top, h);
    }
}

/// Where every object is marked, the forwarding pass leaves every object in place.
pub proof fn lemma_forward_in_place(start: u64, top: int, mem: Seq<u64>, obj: int, table: Map<u64, u64>)
    requires
        placed(start, mem),
        0 <= obj <= top <= mem.len(),
        tiled(mem, obj, top),
        forall|h: int| is_header(mem, obj, top, h) ==> #[trigger] mem[h] == 1,
    ensures
        in_place(start, forward_spec(start, top, mem, obj, obj, table).mem, obj, top),
    decreases top - obj,
{
    if obj < top {
        let size = mem[obj + 1] as int;
        let next = obj + 2 + size;
        assert(is_header(mem, obj, top, obj));
        let m1 = mem.update(obj, addr_of(start, obj) as u64);
        let t1 = table.insert((addr_of(start, obj) + 1) as u64, (addr_of(start, obj) + 1) as u64);
        lemma_tiled_frame(mem, m1, next, top);
        assert forall|h: int| is_header(m1, next, top, h) implies #[trigger] m1[h] == 1 by {
            lemma_is_header_frame(mem, m1, next, top, h);
            lemma_header_bounds(m1, next, top, h);
            assert(is_header(mem, obj, top, h));
            assert(mem[h] == 1);
        }
        lemma_forward_in_place(start, top, m1, next, t1);
        lemma_forward(start, top, m1, next, next, t1);
        let f = forward_spec(start, top, m1, next, next, t1);
        assert(f == forward_spec(start, top, mem, obj, obj, table));
        assert(f.mem[obj] == m1[obj]);
        assert(f.mem[obj + 1] == m1[obj + 1]);
    }
}

/// The update pass over elements that the table maps to themselves changes nothing.
pub proof fn lemma_update_slots_identity(table: Map<u64, u64>, mem: Seq<u64>, obj: int, i: int, size: int)
    requires
        0 <= obj,
        0 <= i,
        obj + 2 + size <= mem.len(),
        forall|j: int| i <= j < size ==> update_word_spec(table, #[trigger] mem[obj + 2 + j]) == (mem[obj + 2 + j], true),
    ensures
        update_slots_spec(table, mem, obj, i, size) == (mem, true),
    decreases size - i,
{
    if i < size {
        assert(update_word_spec(table, mem[obj + 2 + i]) == (mem[obj + 2 + i], true));
        assert(mem.update(obj + 2 + i, mem[obj + 2 + i]) =~= mem);
        lemma_update_slots_identity(table, mem, obj, i + 1, size);
    }
}

/// Element `j` of the object at `h` is a word that the table maps to itself.
pub open spec fn slot_fixed(table: Map<u64, u64>, mem: Seq<u64>, h: int, j: int) -> bool {
    update_word_spec(table, mem[h + 2 + j]) == (mem[h + 2 + j], true)
}

/// The update pass over a heap whose every element the table maps to itself
/// changes nothing.
pub proof fn lemma_update_heap_identity(table: Map<u64, u64>, top: int, mem: Seq<u64>, obj: int)
    requires
        0 <= obj <= top <= mem.len(),
        tiled(mem, obj, top),
        forall|h: int, j: int| is_header(mem, obj, top, h) && 0 <= j < mem[h + 1] ==> #[trigger] slot_fixed(table, mem, h, j),
    ensures
        update_heap_spec(table, top, mem, obj) == (mem, true),
    decreases top - obj,
{
    if obj < top {
        let size = mem[obj + 1] as int;
        assert(is_header(mem, obj, top, obj));
        assert forall|j: int| 0 <= j < size implies update_word_spec(table, #[trigger] mem[obj + 2 + j]) == (
            mem[obj + 2 + j],
            true,
        ) by {
            assert(slot_fixed(table, mem, obj, j));
        }
        lemma_update_slots_identity(table, mem, obj, 0, size);
        assert forall|h: int, j: int| is_header(mem, obj + 2 + size, top, h) && 0 <= j < mem[h + 1] implies #[trigger] slot_fixed(
            table,
            mem,
            h,
            j,
        ) by {
            assert(is_header(mem, obj, top, h));
        }
        lemma_update_heap_identity(table, top, mem, obj + 2 + size);
    }
}

/// The update pass over root slots whose words the table maps to themselves
/// changes nothing.
pub proof fn lemma_update_roots_identity(table: Map<u64, u64>, stack: Seq<u64>, roots: Seq<usize>, k: int)
    requires
        0 <= k,
        forall|j: int| 0 <= j < roots.len() ==> (#[trigger] roots[j]) < stack.len(),
        forall|j: int|
            k <= j < roots.len() ==> update_word_spec(table, stack[(#[trigger] roots[j]) as int]) == (stack[roots[j] as int], true),
    ensures
        update_roots_spec(table, stack, roots, k) == (stack, true),
    decreases roots.len() - k,
{
    if k < roots.len() {
        assert(update_word_spec(table, stack[roots[k] as int]) == (stack[roots[k] as int], true));
        assert(stack.update(roots[k] as int, stack[roots[k] as int]) =~= stack);
        lemma_update_roots_identity(table, stack, roots, k + 1);
    }
}

/// Copying a block onto itself changes nothing.
pub proof fn lemma_copy_identity(mem: Seq<u64>, at: int, i: int, n: int)
    requires
        0 <= at,
        0 <= i,
        at + n <= mem.len(),
    ensures
        copy_words_spec(mem, at, at, i, n) == mem,
    decreases n - i,
{
    if i < n {
        assert(mem.update(at + i, mem[at + i]) =~= mem);
        lemma_copy_identity(mem, at, i + 1, n);
    }
}

/// The compaction pass over a heap that is in place moves and removes nothing.
pub proof fn lemma_compact_identity(start: u64, top: int, mem: Seq<u64>, obj: int, removed: int)
    requires
        placed(start, mem),
        0 <= obj <= top <= mem.len(),
        in_place(start, mem, obj, top),
    ensures
        compact_spec(start, top, mem, obj, removed) == (Compacted { mem, removed, ok: true }),
    decreases top - obj,
{
    if obj < top {
        let size = mem[obj + 1] as int;
        assert(index_of(start, mem[obj] as int) == obj);
        assert(addr_in(start, mem[obj] as int, mem.len() - size - 1));
        lemma_copy_identity(mem, obj, 0, size + 2);
        lemma_compact_identity(start, top, mem, obj + 2 + size, removed);
    }
}

/// Element `j` of the object at `h2` holds the word `w`.
pub open spec fn slot_holds(mem: Seq<u64>, h2: int, j: int, w: u64) -> bool {
    mem[h2 + 2 + j] == w
}

/// The reference to the object at `h` stands in an element of an object below
/// `top` or in a root slot.
pub open spec fn referenced(start: u64, mem: Seq<u64>, top: int, stack: Seq<u64>, roots: Seq<usize>, h: int) -> bool {
    ||| exists|h2: int, j: int|
        is_header(mem, 0, top, h2) && 0 <= j < mem[h2 + 1] && #[trigger] slot_holds(mem, h2, j, ref_word(start, h))
    ||| exists|k: int| 0 <= k < roots.len() && stack[(#[trigger] roots[k]) as int] == ref_word(start, h)
}

/// A collection without garbage changes nothing but mark words: where every
/// object below the heap pointer is referenced from an element or a root, the
/// collection returns the heap pointer it was given, leaves the stack as it
/// was, leaves every word of the heap that is no mark word as it was, and
/// leaves in each mark word the object's own address. So a second collection
/// right after a first returns the first one's heap pointer and layout
/// wherever the first left nothing unreferenced.
pub proof fn lemma_collection_without_garbage(heap: Region, heap_ptr: u64, stack: Region, stack_base: u64, fp: u64, sp: u64)
    requires
        collectable(heap, heap_ptr, stack, stack_base, fp, sp),
        forall|h: int|
            is_header(heap.words@, 0, index_of(heap.start, heap_ptr as int), h) ==> #[trigger] referenced(
                heap.start,
                heap.words@,
                index_of(heap.start, heap_ptr as int),
                stack.words@,
                root_slots_spec(stack, stack_base, fp, sp).unwrap(),
                h,
            ),
    ensures
        ({
            let out = snek_gc_spec(heap, heap_ptr, stack, stack_base, fp, sp);
            let top = index_of(heap.start, heap_ptr as int);
            &&& out.result == Ok::<u64, crate::collector::GcError>(heap_ptr)
            &&& out.stack == stack.words@
            &&& headers_only(heap.words@, out.heap, top)
            &&& in_place(heap.start, out.heap, 0, top)
        }),
{
    lemma_passes(heap, heap_ptr, stack, stack_base, fp, sp);
    let start = heap.start;
    let mem = heap.words@;
    let top = index_of(start, heap_ptr as int);
    let roots = root_slots_spec(stack, stack_base, fp, sp).unwrap();
    let rooted = after_marking(heap, heap_ptr, stack, stack_base, fp, sp);
    let fwd = forward_spec(start, top, rooted, 0, 0, Map::empty());
    let table = fwd.table;
    assert(headers_only(mem, rooted, top));
    assert forall|h: int| is_header(rooted, 0, top, h) implies #[trigger] rooted[h] == 1 by {
        lemma_headers_same(mem, rooted, top, 0, h);
        lemma_header_bounds(mem, 0, top, h);
        let w = ref_word(start, h);
        assert(w == start + 8 * h + 1);
        assert(index_of(start, w - 1) == h);
        assert(referenced(start, mem, top, stack.words@, roots, h));
        if exists|h2: int, j: int|
            is_header(mem, 0, top, h2) && 0 <= j < mem[h2 + 1] && #[trigger] slot_holds(mem, h2, j, w) {
            let (h2, j) = choose|h2: int, j: int|
                is_header(mem, 0, top, h2) && 0 <= j < mem[h2 + 1] && #[trigger] slot_holds(mem, h2, j, w);
            assert(slot_covered(start, mem, rooted, h2, j));
        } else {
            let k = choose|k: int| 0 <= k < roots.len() && stack.words@[(#[trigger] roots[k]) as int] == w;
            assert(covered(start, rooted, stack.words@[roots[k] as int]));
        }
    }
    lemma_forward_in_place(start, top, rooted, 0, Map::empty());
    lemma_forward(start, top, rooted, 0, 0, Map::empty());
    assert forall|e: u64| is_ref(e) && word_ok(start, mem, top, e) implies update_word_spec(table, e) == (e, true) by {
        let t = index_of(start, e - 1);
        assert(ref_word(start, t) == e);
        lemma_headers_same(mem, rooted, top, 0, t);
        lemma_headers_same(mem, fwd.mem, top, 0, t);
        lemma_forward_table(start, top, rooted, 0, 0, Map::empty(), t);
        lemma_in_place_at(start, fwd.mem, 0, top, t);
    }
    assert forall|h: int, j: int| is_header(fwd.mem, 0, top, h) && 0 <= j < fwd.mem[h + 1] implies #[trigger] slot_fixed(
        table,
        fwd.mem,
        h,
        j,
    ) by {
        lemma_headers_same(mem, fwd.mem, top, 0, h);
        lemma_header_bounds(mem, 0, top, h);
        lemma_inside_is_no_header(mem, top, h, h + 1);
        assert(fwd.mem[h + 1] == mem[h + 1]);
        lemma_inside_is_no_header(mem, top, h, h + 2 + j);
        assert(fwd.mem[h + 2 + j] == mem[h + 2 + j]);
        assert(slot_ok(start, mem, top, h, j));
    }
    lemma_update_heap_identity(table, top, fwd.mem, 0);
    assert forall|j: int| 0 <= j < roots.len() implies update_word_spec(table, stack.words@[(#[trigger] roots[j]) as int]) == (
        stack.words@[roots[j] as int],
        true,
    ) by {
        assert(word_ok(start, mem, top, stack.words@[roots[j] as int]));
    }
    lemma_update_roots_identity(table, stack.words@, roots, 0);
    lemma_compact_identity(start, top, fwd.mem, 0, 0);
}

/// No slot occurs twice in a chain of frames, and each lies at or above the
/// stack pointer or above the first frame pointer.
pub proof fn lemma_chain_slots_distinct(start: u64, words: Seq<u64>, base: int, fp: int, sp: int)
    requires
        words.len() <= usize::MAX,
        0 <= sp,
        0 <= fp < words.len(),
        chain_slots(start, words, base, fp, sp).is_some(),
    ensures
        distinct(chain_slots(start, words, base, fp, sp).unwrap()),
        forall|k: int|
            0 <= k < chain_slots(start, words, base, fp, sp).unwrap().len() ==> {
                let slot = #[trigger] chain_slots(start, words, base, fp, sp).unwrap()[k];
                sp <= slot || fp + 2 <= slot
            },
    decreases words.len() - fp,
{
    let frame = frame_slots(fp, sp);
    assert forall|k: int| 0 <= k < frame.len() implies #[trigger] frame[k] == fp - k by {}
    if fp != base {
        let next = index_of(start, words[fp] as int);
        lemma_chain_slots_distinct(start, words, base, next, fp + 2);
        let rest = chain_slots(start, words, base, next, fp + 2).unwrap();
        let all = frame + rest;
        assert(all == chain_slots(start, words, base, fp, sp).unwrap());
        assert forall|i: int, j: int| 0 <= i < j < all.len() implies all[i] != all[j] by {
            if j < frame.len() {
                assert(all[i] == frame[i] && all[j] == frame[j]);
            } else if i < frame.len() {
                assert(all[i] == frame[i]);
                assert(all[j] == rest[j - frame.len()]);
            } else {
                assert(all[i] == rest[i - frame.len()]);
                assert(all[j] == rest[j - frame.len()]);
            }
        }
        assert forall|k: int| 0 <= k < all.len() implies sp <= #[trigger] all[k] || fp + 2 <= all[k] by {
            if k < frame.len() {
                assert(all[k] == frame[k]);
            } else {
                assert(all[k] == rest[k - frame.len()]);
            }
        }
    }
}

/// No root slot occurs twice among those that the scanner lists.
pub proof fn lemma_root_slots_distinct(stack: Region, stack_base: u64, fp: u64, sp: u64)
    requires
        stack.words@.len() <= usize::MAX,
        root_slots_spec(stack, stack_base, fp, sp).is_some(),
    ensures
        distinct(root_slots_spec(stack, stack_base, fp, sp).unwrap()),
{
    lemma_chain_slots_distinct(
        stack.start,
        stack.words@,
        index_of(stack.start, stack_base as int),
        index_of(stack.start, fp as int),
        index_of(stack.start, sp as int),
    );
}

/// The update pass over the roots changes references only.
pub proof fn lemma_update_roots_changes(table: Map<u64, u64>, stack: Seq<u64>, roots: Seq<usize>, k: int)
    requires
        0 <= k,
        forall|j: int| 0 <= j < roots.len() ==> (#[trigger] roots[j]) < stack.len(),
    ensures
        update_roots_spec(table, stack, roots, k).0.len() == stack.len(),
        forall|i: int|
            0 <= i < stack.len() && #[trigger] update_roots_spec(table, stack, roots, k).0[i] != stack[i] ==> is_ref(stack[i]),
    decreases roots.len() - k,
{
    if k < roots.len() {
        let w = update_word_spec(table, stack[roots[k] as int]);
        if w.1 {
            let s1 = stack.update(roots[k] as int, w.0);
            lemma_update_roots_changes(table, s1, roots, k + 1);
            let r = update_roots_spec(table, s1, roots, k + 1).0;
            assert(r == update_roots_spec(table, stack, roots, k).0);
            assert forall|i: int| 0 <= i < stack.len() && #[trigger] r[i] != stack[i] implies is_ref(stack[i]) by {
                if s1[i] == stack[i] {
                    assert(r[i] != s1[i]);
                }
            }
        }
    }
}

/// A chain of frames is the same chain after words that are references have changed.
pub proof fn lemma_chain_unchanged(start: u64, a: Seq<u64>, b: Seq<u64>, base: int, fp: int, sp: int)
    requires
        start % 8 == 0,
        a.len() == b.len(),
        0 <= fp < a.len(),
        forall|i: int| 0 <= i < a.len() && #[trigger] b[i] != a[i] ==> is_ref(a[i]),
        chain_slots(start, a, base, fp, sp).is_some(),
    ensures
        chain_slots(start, b, base, fp, sp) == chain_slots(start, a, base, fp, sp),
    decreases a.len() - fp,
{
    if fp != base {
        assert(!is_ref(a[fp]));
        assert(b[fp] == a[fp]);
        lemma_chain_unchanged(start, a, b, base, index_of(start, a[fp] as int), fp + 2);
    }
}

/// A collection keeps what it is meant for: after the collection of a
/// well-formed heap, the heap with the new heap pointer and the stack with the
/// same frames are again a heap and roots that a collection is meant for.
pub proof fn lemma_collection_keeps_collectable(heap: Region, heap_ptr: u64, stack: Region, stack_base: u64, fp: u64, sp: u64)
    requires
        collectable(heap, heap_ptr, stack, stack_base, fp, sp),
    ensures
        ({
            let out = snek_gc_spec(heap, heap_ptr, stack, stack_base, fp, sp);
            &&& out.result.is_ok()
            &&& out.heap.len() == heap.words@.len()
            &&& out.stack.len() == stack.words@.len()
            &&& forall|after: Region, restack: Region|
                after.start == heap.start && after.words@ == out.heap && restack.start == stack.start && restack.words@
                    == out.stack ==> #[trigger] collectable(after, out.result.unwrap(), restack, stack_base, fp, sp)
        }),
{
    lemma_passes(heap, heap_ptr, stack, stack_base, fp, sp);
    lemma_collection_is_dense(heap, heap_ptr, stack, stack_base, fp, sp);
    lemma_collection_keeps_well_formed(heap, heap_ptr, stack, stack_base, fp, sp);
    let out = snek_gc_spec(heap, heap_ptr, stack, stack_base, fp, sp);
    let roots = root_slots_spec(stack, stack_base, fp, sp).unwrap();
    let table = collection_table(heap, heap_ptr, stack, stack_base, fp, sp);
    let top = index_of(heap.start, heap_ptr as int);
    let p = out.result.unwrap();
    lemma_update_roots_changes(table, stack.words@, roots, 0);
    lemma_chain_unchanged(
        stack.start,
        stack.words@,
        out.stack,
        index_of(stack.start, stack_base as int),
        index_of(stack.start, fp as int),
        index_of(stack.start, sp as int),
    );
    let moved = compact_spec(heap.start, top, after_update(heap, heap_ptr, stack, stack_base, fp, sp), 0, 0);
    assert(p == heap.start + 8 * (top - moved.removed));
    assert(addr_in(heap.start, p as int, heap.words@.len() as int + 1));
    assert forall|after: Region, restack: Region|
        after.start == heap.start && after.words@ == out.heap && restack.start == stack.start && restack.words@
            == out.stack implies #[trigger] collectable(after, p, restack, stack_base, fp, sp) by {
        assert(root_slots_spec(restack, stack_base, fp, sp) == root_slots_spec(stack, stack_base, fp, sp));
    }
}

/// The object that the reference `a` refers to holds the word `b` in its element `j`.
pub open spec fn holds_at(start: u64, mem: Seq<u64>, a: u64, j: int, b: u64) -> bool {
    0 <= j < mem[index_of(start, a - 1) + 1] && mem[index_of(start, a - 1) + 2 + j] == b
}

/// A chain of references from a root: the first stands in root slot `k`, and
/// each of the others stands in an element of the object that the one before
/// it refers to.
pub open spec fn chain_from_root(start: u64, mem: Seq<u64>, stack: Seq<u64>, roots: Seq<usize>, k: int, chain: Seq<u64>) -> bool {
    &&& chain.len() > 0
    &&& 0 <= k < roots.len()
    &&& stack[roots[k] as int] == chain[0]
    &&& forall|i: int| 0 <= i < chain.len() ==> is_ref(#[trigger] chain[i])
    &&& forall|i: int| 0 < i < chain.len() ==> #[trigger] linked(start, mem, chain, i)
}

/// The reference at place `i` of a chain stands in an element of the object
/// that the one before it refers to.
pub open spec fn linked(start: u64, mem: Seq<u64>, chain: Seq<u64>, i: int) -> bool {
    exists|j: int| #[trigger] holds_at(start, mem, chain[i - 1], j, chain[i])
}

/// Reachability is preserved: every object reached from a root by a chain of
/// references survives the collection, at the place that the table gives for
/// the reference to it, with the size it had and with what the table makes of
/// each of its elements.
pub proof fn lemma_reachable_survives(
    heap: Region,
    heap_ptr: u64,
    stack: Region,
    stack_base: u64,
    fp: u64,
    sp: u64,
    k: int,
    chain: Seq<u64>,
    i: int,
)
    requires
        collectable(heap, heap_ptr, stack, stack_base, fp, sp),
        chain_from_root(
            heap.start,
            heap.words@,
            stack.words@,
            root_slots_spec(stack, stack_base, fp, sp).unwrap(),
            k,
            chain,
        ),
        0 <= i < chain.len(),
    ensures
        word_ok(heap.start, heap.words@, index_of(heap.start, heap_ptr as int), chain[i]),
        survives(heap, heap_ptr, stack, stack_base, fp, sp, chain[i]),
    decreases i,
{
    let start = heap.start;
    let mem = heap.words@;
    let top = index_of(start, heap_ptr as int);
    let roots = root_slots_spec(stack, stack_base, fp, sp).unwrap();
    if i == 0 {
        assert(roots[k] < stack.words@.len());
        lemma_root_target_survives(heap, heap_ptr, stack, stack_base, fp, sp, k);
    } else {
        lemma_reachable_survives(heap, heap_ptr, stack, stack_base, fp, sp, k, chain, i - 1);
        let a = chain[i - 1];
        assert(is_ref(a));
        assert(linked(start, mem, chain, i));
        let h = index_of(start, a - 1);
        let j = choose|j: int| #[trigger] holds_at(start, mem, a, j, chain[i]);
        assert(is_ref(chain[i]));
        assert(slot_ok(start, mem, top, h, j));
        lemma_element_target_survives(heap, heap_ptr, stack, stack_base, fp, sp, h, j);
    }
}

} // verus!
