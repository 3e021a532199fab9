//! The mark-and-compact collector: mark, compute forwarding addresses, update
//! references, compact. Each pass walks the heap object by object, in address
//! order, and stops at the first thing that cannot be a well-formed heap.

use vstd::prelude::*;
use std::collections::HashMap;
use crate::value::{is_ref, is_vec_ref};
use crate::heap::{Region, addr_of, addr_in, index_of};
use crate::roots::{root_slots, root_slots_spec};
use crate::laws::{collectable, lemma_collection_keeps_collectable};

verus! {

broadcast use vstd::std_specs::hash::group_hash_axioms;

/// The object at index `obj` has its two header words and all its elements
/// below `top`.
pub open spec fn object_fits(mem: Seq<u64>, obj: int, top: int) -> bool {
    obj + 2 <= top && obj + 2 + mem[obj + 1] <= top
}

/// Marking through one word: a reference into the heap sets the word it points
/// to to 1, a reference to anywhere else is refused, any other word does nothing.
pub open spec fn mark_word_spec(start: u64, top: int, mem: Seq<u64>, w: u64) -> (Seq<u64>, bool) {
    if !is_ref(w) {
        (mem, true)
    } else if addr_in(start, w - 1, top) {
        (mem.update(index_of(start, w - 1), 1), true)
    } else {
        (mem, false)
    }
}

/// Marking through the elements `i..size` of the object at `obj`, in order.
pub open spec fn mark_slots_spec(start: u64, top: int, mem: Seq<u64>, obj: int, i: int, size: int) -> (Seq<u64>, bool)
    decreases size - i,
{
    if i >= size {
        (mem, true)
    } else {
        let (m, ok) = mark_word_spec(start, top, mem, mem[obj + 2 + i]);
        if ok {
            mark_slots_spec(start, top, m, obj, i + 1, size)
        } else {
            (m, false)
        }
    }
}

/// Marking through the elements of every object from `obj` up to `top`,
/// whether that object is itself marked or not.
pub open spec fn mark_heap_spec(start: u64, top: int, mem: Seq<u64>, obj: int) -> (Seq<u64>, bool)
    decreases top - obj,
{
    if obj >= top {
        (mem, true)
    } else if !object_fits(mem, obj, top) {
        (mem, false)
    } else {
        let size = mem[obj + 1] as int;
        let (m, ok) = mark_slots_spec(start, top, mem, obj, 0, size);
        if ok {
            mark_heap_spec(start, top, m, obj + 2 + size)
        } else {
            (m, false)
        }
    }
}

/// Marking through the stack words at the root slots `k..`, in order.
pub open spec fn mark_roots_spec(start: u64, top: int, mem: Seq<u64>, stack: Seq<u64>, roots: Seq<usize>, k: int) -> (Seq<u64>, bool)
    decreases roots.len() - k,
{
    if k >= roots.len() {
        (mem, true)
    } else {
        let (m, ok) = mark_word_spec(start, top, mem, stack[roots[k] as int]);
        if ok {
            mark_roots_spec(start, top, m, stack, roots, k + 1)
        } else {
            (m, false)
        }
    }
}

/// What the forwarding pass leaves: the heap, the table from old reference to
/// new reference, the number of words that the marked objects take, and whether
/// every object fitted.
pub struct Forwarded {
    pub mem: Seq<u64>,
    pub table: Map<u64, u64>,
    pub cursor: int,
    pub ok: bool,
}

/// The forwarding pass from `obj` on. A marked object gets the address
/// `start + 8 * cursor` in its mark word and an entry in the table, and moves
/// the cursor on by its length; any other object gets 0 in its mark word.
pub open spec fn forward_spec(start: u64, top: int, mem: Seq<u64>, obj: int, cursor: int, table: Map<u64, u64>) -> Forwarded
    decreases top - obj,
{
    if obj >= top {
        Forwarded { mem, table, cursor, ok: true }
    } else if !object_fits(mem, obj, top) {
        Forwarded { mem, table, cursor, ok: false }
    } else {
        let size = mem[obj + 1] as int;
        if mem[obj] == 1 {
            forward_spec(
                start,
                top,
                mem.update(obj, addr_of(start, cursor) as u64),
                obj + 2 + size,
                cursor + 2 + size,
                table.insert((addr_of(start, obj) + 1) as u64, (addr_of(start, cursor) + 1) as u64),
            )
        } else {
            forward_spec(start, top, mem.update(obj, 0), obj + 2 + size, cursor, table)
        }
    }
}

/// A word after the update pass: a reference is replaced by what the table
/// holds for it, and refused if the table holds nothing; any other word stays.
pub open spec fn update_word_spec(table: Map<u64, u64>, w: u64) -> (u64, bool) {
    if !is_ref(w) {
        (w, true)
    } else if table.contains_key(w) {
        (table[w], true)
    } else {
        (w, false)
    }
}

/// The update pass over the elements `i..size` of the object at `obj`.
pub open spec fn update_slots_spec(table: Map<u64, u64>, mem: Seq<u64>, obj: int, i: int, size: int) -> (Seq<u64>, bool)
    decreases size - i,
{
    if i >= size {
        (mem, true)
    } else {
        let (w, ok) = update_word_spec(table, mem[obj + 2 + i]);
        if ok {
            update_slots_spec(table, mem.update(obj + 2 + i, w), obj, i + 1, size)
        } else {
            (mem, false)
        }
    }
}

/// The update pass over every object from `obj` up to `top`.
pub open spec fn update_heap_spec(table: Map<u64, u64>, top: int, mem: Seq<u64>, obj: int) -> (Seq<u64>, bool)
    decreases top - obj,
{
    if obj >= top {
        (mem, true)
    } else if !object_fits(mem, obj, top) {
        (mem, false)
    } else {
        let size = mem[obj + 1] as int;
        let (m, ok) = update_slots_spec(table, mem, obj, 0, size);
        if ok {
            update_heap_spec(table, top, m, obj + 2 + size)
        } else {
            (m, false)
        }
    }
}

/// The update pass over the stack words at the root slots `k..`.
pub open spec fn update_roots_spec(table: Map<u64, u64>, stack: Seq<u64>, roots: Seq<usize>, k: int) -> (Seq<u64>, bool)
    decreases roots.len() - k,
{
    if k >= roots.len() {
        (stack, true)
    } else {
        let (w, ok) = update_word_spec(table, stack[roots[k] as int]);
        if ok {
            update_roots_spec(table, stack.update(roots[k] as int, w), roots, k + 1)
        } else {
            (stack, false)
        }
    }
}

/// The words `i..n` of the block at `src` copied to the block at `dst`, lowest first.
pub open spec fn copy_words_spec(mem: Seq<u64>, src: int, dst: int, i: int, n: int) -> Seq<u64>
    decreases n - i,
{
    if i >= n {
        mem
    } else {
        copy_words_spec(mem.update(dst + i, mem[src + i]), src, dst, i + 1, n)
    }
}

/// What the compaction pass leaves: the heap, the number of words that the
/// dropped objects took, and whether every object and every move fitted.
pub struct Compacted {
    pub mem: Seq<u64>,
    pub removed: int,
    pub ok: bool,
}

/// The compaction pass from `obj` on. An object whose mark word is not 0 is
/// copied to the address in that word; any other object adds its length to the
/// words removed.
pub open spec fn compact_spec(start: u64, top: int, mem: Seq<u64>, obj: int, removed: int) -> Compacted
    decreases top - obj,
{
    if obj >= top {
        Compacted { mem, removed, ok: true }
    } else if !object_fits(mem, obj, top) {
        Compacted { mem, removed, ok: false }
    } else {
        let size = mem[obj + 1] as int;
        let mark = mem[obj];
        if mark != 0 {
            if addr_in(start, mark as int, mem.len() - size - 1) {
                compact_spec(
                    start,
                    top,
                    copy_words_spec(mem, obj, index_of(start, mark as int), 0, size + 2),
                    obj + 2 + size,
                    removed,
                )
            } else {
                Compacted { mem, removed, ok: false }
            }
        } else {
            compact_spec(start, top, mem, obj + 2 + size, removed + size + 2)
        }
    }
}

/// Marks what one word refers to. Returns `false`, and leaves the heap as it
/// is, for a reference that points outside the first `top` words.
pub fn mark_word(heap: &mut Region, top: usize, w: u64) -> (ok: bool)
    requires
        old(heap).valid(),
        top <= old(heap).words@.len(),
    ensures
        final(heap).start == old(heap).start,
        final(heap).words@.len() == old(heap).words@.len(),
        (final(heap).words@, ok) == mark_word_spec(old(heap).start, top as int, old(heap).words@, w),
{
    if !is_vec_ref(w) {
        return true;
    }
    match heap.index(w - 1, top) {
        Some(i) => {
            heap.words.set(i, 1);
            true
        },
        None => false,
    }
}

/// The length of the object at `obj`, if the object lies below `top`.
pub fn object_size(heap: &Region, top: usize, obj: usize) -> (r: Option<usize>)
    requires
        top <= heap.words@.len(),
        obj < top,
    ensures
        r.is_some() <==> object_fits(heap.words@, obj as int, top as int),
        r.is_some() ==> r.unwrap() == heap.words@[obj + 1],
{
    if top - obj < 2 {
        return None;
    }
    let size: u64 = heap.words[obj + 1];
    if size <= (top - obj - 2) as u64 {
        Some(size as usize)
    } else {
        None
    }
}

/// Marks what the elements of the object at `obj` refer to.
pub fn mark_slots(heap: &mut Region, top: usize, obj: usize, size: usize) -> (ok: bool)
    requires
        old(heap).valid(),
        top <= old(heap).words@.len(),
        obj + 2 + size <= top,
    ensures
        final(heap).start == old(heap).start,
        final(heap).words@.len() == old(heap).words@.len(),
        (final(heap).words@, ok) == mark_slots_spec(old(heap).start, top as int, old(heap).words@, obj as int, 0, size as int),
{
    let mut i: usize = 0;
    while i < size
        invariant
            i <= size,
            obj + 2 + size <= top,
            top <= heap.words@.len(),
            heap.valid(),
            heap.start == old(heap).start,
            heap.words@.len() == old(heap).words@.len(),
            mark_slots_spec(heap.start, top as int, heap.words@, obj as int, i as int, size as int)
                == mark_slots_spec(old(heap).start, top as int, old(heap).words@, obj as int, 0, size as int),
        decreases size - i,
    {
        let w: u64 = heap.words[obj + 2 + i];
        if !mark_word(heap, top, w) {
            return false;
        }
        i += 1;
    }
    true
}

/// The first pass over the heap: marks every object that an element of any
/// object below `top` refers to.
pub fn mark_heap(heap: &mut Region, top: usize) -> (ok: bool)
    requires
        old(heap).valid(),
        top <= old(heap).words@.len(),
    ensures
        final(heap).start == old(heap).start,
        final(heap).words@.len() == old(heap).words@.len(),
        (final(heap).words@, ok) == mark_heap_spec(old(heap).start, top as int, old(heap).words@, 0),
{
    let mut obj: usize = 0;
    while obj < top
        invariant
            obj <= top,
            top <= heap.words@.len(),
            heap.valid(),
            heap.start == old(heap).start,
            heap.words@.len() == old(heap).words@.len(),
            mark_heap_spec(heap.start, top as int, heap.words@, obj as int)
                == mark_heap_spec(old(heap).start, top as int, old(heap).words@, 0),
        decreases top - obj,
    {
        match object_size(heap, top, obj) {
            None => {
                return false;
            },
            Some(size) => {
                if !mark_slots(heap, top, obj, size) {
                    return false;
                }
                obj = obj + 2 + size;
            },
        }
    }
    true
}

/// Marks every object that a stack word at one of the root slots refers to.
pub fn mark_roots(heap: &mut Region, top: usize, stack: &Region, roots: &Vec<usize>) -> (ok: bool)
    requires
        old(heap).valid(),
        top <= old(heap).words@.len(),
        forall|k: int| 0 <= k < roots@.len() ==> roots@[k] < stack.words@.len(),
    ensures
        final(heap).start == old(heap).start,
        final(heap).words@.len() == old(heap).words@.len(),
        (final(heap).words@, ok) == mark_roots_spec(old(heap).start, top as int, old(heap).words@, stack.words@, roots@, 0),
{
    let mut k: usize = 0;
    while k < roots.len()
        invariant
            k <= roots@.len(),
            top <= heap.words@.len(),
            heap.valid(),
            heap.start == old(heap).start,
            heap.words@.len() == old(heap).words@.len(),
            forall|j: int| 0 <= j < roots@.len() ==> roots@[j] < stack.words@.len(),
            mark_roots_spec(heap.start, top as int, heap.words@, stack.words@, roots@, k as int)
                == mark_roots_spec(old(heap).start, top as int, old(heap).words@, stack.words@, roots@, 0),
        decreases roots@.len() - k,
    {
        let w: u64 = stack.words[roots[k]];
        if !mark_word(heap, top, w) {
            return false;
        }
        k += 1;
    }
    true
}

/// The second pass: gives every marked object its new address, in address
/// order and without gaps, and enters it in the table; clears the mark word of
/// every other object. Returns the number of words that the marked objects
/// take, or `None` at an object that does not fit below `top`.
pub fn forward(heap: &mut Region, top: usize, table: &mut HashMap<u64, u64>) -> (r: Option<usize>)
    requires
        old(heap).valid(),
        top <= old(heap).words@.len(),
    ensures
        final(heap).start == old(heap).start,
        final(heap).words@.len() == old(heap).words@.len(),
        ({
            let f = forward_spec(old(heap).start, top as int, old(heap).words@, 0, 0, old(table)@);
            &&& final(heap).words@ == f.mem
            &&& final(table)@ == f.table
            &&& r.is_some() == f.ok
            &&& r.is_some() ==> r.unwrap() == f.cursor && r.unwrap() <= top
        }),
{
    let mut obj: usize = 0;
    let mut cursor: usize = 0;
    while obj < top
        invariant
            cursor <= obj <= top,
            top <= heap.words@.len(),
            heap.valid(),
            heap.start == old(heap).start,
            heap.words@.len() == old(heap).words@.len(),
            forward_spec(heap.start, top as int, heap.words@, obj as int, cursor as int, table@)
                == forward_spec(old(heap).start, top as int, old(heap).words@, 0, 0, old(table)@),
        decreases top - obj,
    {
        match object_size(heap, top, obj) {
            None => {
                return None;
            },
            Some(size) => {
                if heap.words[obj] == 1 {
                    let from: u64 = heap.addr(obj);
                    let to: u64 = heap.addr(cursor);
                    heap.words.set(obj, to);
                    table.insert(from + 1, to + 1);
                    cursor = cursor + 2 + size;
                } else {
                    heap.words.set(obj, 0);
                }
                obj = obj + 2 + size;
            },
        }
    }
    Some(cursor)
}

/// What a word becomes in the update pass: the table's entry for a reference,
/// the word itself where it is no reference, `None` for a reference that the
/// table does not hold.
pub fn update_word(table: &HashMap<u64, u64>, w: u64) -> (r: Option<u64>)
    ensures
        r.is_some() == update_word_spec(table@, w).1,
        r.is_some() ==> r.unwrap() == update_word_spec(table@, w).0,
{
    if !is_vec_ref(w) {
        return Some(w);
    }
    match table.get(&w) {
        Some(n) => Some(*n),
        None => None,
    }
}

/// Replaces every reference among the elements of the object at `obj`.
pub fn update_slots(heap: &mut Region, table: &HashMap<u64, u64>, obj: usize, size: usize) -> (ok: bool)
    requires
        obj + 2 + size <= old(heap).words@.len(),
    ensures
        final(heap).start == old(heap).start,
        final(heap).words@.len() == old(heap).words@.len(),
        (final(heap).words@, ok) == update_slots_spec(table@, old(heap).words@, obj as int, 0, size as int),
{
    let len: usize = heap.words.len();
    let mut i: usize = 0;
    while i < size
        invariant
            i <= size,
            len == heap.words@.len(),
            obj + 2 + size <= heap.words@.len(),
            heap.start == old(heap).start,
            heap.words@.len() == old(heap).words@.len(),
            update_slots_spec(table@, heap.words@, obj as int, i as int, size as int)
                == update_slots_spec(table@, old(heap).words@, obj as int, 0, size as int),
        decreases size - i,
    {
        let w: u64 = heap.words[obj + 2 + i];
        match update_word(table, w) {
            None => {
                return false;
            },
            Some(n) => {
                heap.words.set(obj + 2 + i, n);
            },
        }
        i += 1;
    }
    true
}

/// The third pass over the heap: replaces every reference in an element of an
/// object below `top` by the table's entry for it.
pub fn update_heap(heap: &mut Region, top: usize, table: &HashMap<u64, u64>) -> (ok: bool)
    requires
        top <= old(heap).words@.len(),
    ensures
        final(heap).start == old(heap).start,
        final(heap).words@.len() == old(heap).words@.len(),
        (final(heap).words@, ok) == update_heap_spec(table@, top as int, old(heap).words@, 0),
{
    let mut obj: usize = 0;
    while obj < top
        invariant
            obj <= top,
            top <= heap.words@.len(),
            heap.start == old(heap).start,
            heap.words@.len() == old(heap).words@.len(),
            update_heap_spec(table@, top as int, heap.words@, obj as int)
                == update_heap_spec(table@, top as int, old(heap).words@, 0),
        decreases top - obj,
    {
        match object_size(heap, top, obj) {
            None => {
                return false;
            },
            Some(size) => {
                if !update_slots(heap, table, obj, size) {
                    return false;
                }
                obj = obj + 2 + size;
            },
        }
    }
    true
}

/// Replaces every reference in a stack word at one of the root slots by the
/// table's entry for it.
pub fn update_roots(stack: &mut Region, table: &HashMap<u64, u64>, roots: &Vec<usize>) -> (ok: bool)
    requires
        forall|k: int| 0 <= k < roots@.len() ==> roots@[k] < old(stack).words@.len(),
    ensures
        final(stack).start == old(stack).start,
        final(stack).words@.len() == old(stack).words@.len(),
        (final(stack).words@, ok) == update_roots_spec(table@, old(stack).words@, roots@, 0),
{
    let mut k: usize = 0;
    while k < roots.len()
        invariant
            k <= roots@.len(),
            stack.start == old(stack).start,
            stack.words@.len() == old(stack).words@.len(),
            forall|j: int| 0 <= j < roots@.len() ==> roots@[j] < stack.words@.len(),
            update_roots_spec(table@, stack.words@, roots@, k as int)
                == update_roots_spec(table@, old(stack).words@, roots@, 0),
        decreases roots@.len() - k,
    {
        let slot: usize = roots[k];
        let w: u64 = stack.words[slot];
        match update_word(table, w) {
            None => {
                return false;
            },
            Some(n) => {
                stack.words.set(slot, n);
            },
        }
        k += 1;
    }
    true
}

/// Copies the `n` words at `src` to `dst`, lowest first.
pub fn copy_words(heap: &mut Region, src: usize, dst: usize, n: usize)
    requires
        src + n <= old(heap).words@.len(),
        dst + n <= old(heap).words@.len(),
    ensures
        final(heap).start == old(heap).start,
        final(heap).words@.len() == old(heap).words@.len(),
        final(heap).words@ == copy_words_spec(old(heap).words@, src as int, dst as int, 0, n as int),
{
    let len: usize = heap.words.len();
    let mut i: usize = 0;
    while i < n
        invariant
            i <= n,
            len == heap.words@.len(),
            src + n <= heap.words@.len(),
            dst + n <= heap.words@.len(),
            heap.start == old(heap).start,
            heap.words@.len() == old(heap).words@.len(),
            copy_words_spec(heap.words@, src as int, dst as int, i as int, n as int)
                == copy_words_spec(old(heap).words@, src as int, dst as int, 0, n as int),
        decreases n - i,
    {
        let w: u64 = heap.words[src + i];
        heap.words.set(dst + i, w);
        i += 1;
    }
}

/// The fourth pass: moves every object whose mark word holds an address to that
/// address. Returns the number of words that the other objects took, or `None`
/// at an object that does not fit below `top` or whose move would leave the heap.
pub fn compact(heap: &mut Region, top: usize) -> (r: Option<usize>)
    requires
        old(heap).valid(),
        top <= old(heap).words@.len(),
    ensures
        final(heap).start == old(heap).start,
        final(heap).words@.len() == old(heap).words@.len(),
        ({
            let c = compact_spec(old(heap).start, top as int, old(heap).words@, 0, 0);
            &&& final(heap).words@ == c.mem
            &&& r.is_some() == c.ok
            &&& r.is_some() ==> r.unwrap() == c.removed && r.unwrap() <= top
        }),
{
    let mut obj: usize = 0;
    let mut removed: usize = 0;
    while obj < top
        invariant
            removed <= obj <= top,
            top <= heap.words@.len(),
            heap.valid(),
            heap.start == old(heap).start,
            heap.words@.len() == old(heap).words@.len(),
            compact_spec(heap.start, top as int, heap.words@, obj as int, removed as int)
                == compact_spec(old(heap).start, top as int, old(heap).words@, 0, 0),
        decreases top - obj,
    {
        match object_size(heap, top, obj) {
            None => {
                return None;
            },
            Some(size) => {
                let mark: u64 = heap.words[obj];
                if mark != 0 {
                    match heap.index(mark, heap.words.len() - size - 1) {
                        None => {
                            return None;
                        },
                        Some(dst) => {
                            copy_words(heap, obj, dst, size + 2);
                        },
                    }
                } else {
                    removed = removed + size + 2;
                }
                obj = obj + 2 + size;
            },
        }
    }
    Some(removed)
}

/// Why a collection stopped.
#[derive(Clone, Copy, Debug, PartialEq, Eq, Structural)]
pub enum GcError {
    /// The stack base, the frame pointer, the stack pointer or a saved frame
    /// pointer is no address in the stack, or a frame's link does not lead upwards.
    BadStack,
    /// The heap pointer is no address in the heap, an object does not end below
    /// it, a reference points outside the heap or to an object that was not
    /// marked, or a move would leave the heap.
    BadHeap,
    /// The collection ran, and the heap is still too full.
    OutOfMemory,
}

/// What a collection leaves: the words of the heap, the words of the stack, and
/// the new heap pointer or the reason for stopping.
pub struct GcOutcome {
    pub heap: Seq<u64>,
    pub stack: Seq<u64>,
    pub result: Result<u64, GcError>,
}

/// A full collection: the four passes in order, each on what the one before
/// left, stopping at the first that fails. The new heap pointer is the old one
/// less the words that the dropped objects took.
pub open spec fn snek_gc_spec(heap: Region, heap_ptr: u64, stack: Region, stack_base: u64, fp: u64, sp: u64) -> GcOutcome {
    let start = heap.start;
    let top = index_of(start, heap_ptr as int);
    let roots = root_slots_spec(stack, stack_base, fp, sp);
    if !addr_in(start, heap_ptr as int, heap.words@.len() as int + 1) {
        GcOutcome { heap: heap.words@, stack: stack.words@, result: Err(GcError::BadHeap) }
    } else if roots.is_none() {
        GcOutcome { heap: heap.words@, stack: stack.words@, result: Err(GcError::BadStack) }
    } else {
        let marked = mark_heap_spec(start, top, heap.words@, 0);
        let rooted = mark_roots_spec(start, top, marked.0, stack.words@, roots.unwrap(), 0);
        let fwd = forward_spec(start, top, rooted.0, 0, 0, Map::empty());
        let updated = update_heap_spec(fwd.table, top, fwd.mem, 0);
        let restacked = update_roots_spec(fwd.table, stack.words@, roots.unwrap(), 0);
        let moved = compact_spec(start, top, updated.0, 0, 0);
        if !marked.1 {
            GcOutcome { heap: marked.0, stack: stack.words@, result: Err(GcError::BadHeap) }
        } else if !rooted.1 {
            GcOutcome { heap: rooted.0, stack: stack.words@, result: Err(GcError::BadHeap) }
        } else if !fwd.ok {
            GcOutcome { heap: fwd.mem, stack: stack.words@, result: Err(GcError::BadHeap) }
        } else if !updated.1 {
            GcOutcome { heap: updated.0, stack: stack.words@, result: Err(GcError::BadHeap) }
        } else if !restacked.1 {
            GcOutcome { heap: updated.0, stack: restacked.0, result: Err(GcError::BadHeap) }
        } else if !moved.ok {
            GcOutcome { heap: moved.mem, stack: restacked.0, result: Err(GcError::BadHeap) }
        } else {
            GcOutcome { heap: moved.mem, stack: restacked.0, result: Ok((heap_ptr - 8 * moved.removed) as u64) }
        }
    }
}

/// Collects the heap below `heap_ptr`, with the frames from `fp` and `sp` up to
/// `stack_base` as roots, and returns the new heap pointer.
pub fn snek_gc(heap: &mut Region, heap_ptr: u64, stack: &mut Region, stack_base: u64, fp: u64, sp: u64) -> (r: Result<u64, GcError>)
    requires
        old(heap).valid(),
        old(stack).valid(),
    ensures
        final(heap).start == old(heap).start,
        final(stack).start == old(stack).start,
        final(heap).valid(),
        final(stack).valid(),
        final(heap).words@.len() == old(heap).words@.len(),
        final(stack).words@.len() == old(stack).words@.len(),
        final(heap).words@ == snek_gc_spec(*old(heap), heap_ptr, *old(stack), stack_base, fp, sp).heap,
        final(stack).words@ == snek_gc_spec(*old(heap), heap_ptr, *old(stack), stack_base, fp, sp).stack,
        r == snek_gc_spec(*old(heap), heap_ptr, *old(stack), stack_base, fp, sp).result,
        r.is_ok() ==> r.unwrap() <= addr_of(old(heap).start, old(heap).words@.len() as int),
        collectable(*old(heap), heap_ptr, *old(stack), stack_base, fp, sp) ==> r.is_ok() && collectable(
            *final(heap),
            r.unwrap(),
            *final(stack),
            stack_base,
            fp,
            sp,
        ),
        r.is_ok() ==> old(heap).start <= r.unwrap() <= heap_ptr && addr_in(
            old(heap).start,
            r.unwrap() as int,
            old(heap).words@.len() as int + 1,
        ),
{
    proof {
        if collectable(*heap, heap_ptr, *stack, stack_base, fp, sp) {
            lemma_collection_keeps_collectable(*heap, heap_ptr, *stack, stack_base, fp, sp);
        }
    }
    let start: u64 = heap.start;
    if heap_ptr < start || (heap_ptr - start) % 8 != 0 || (heap_ptr - start) / 8 > heap.words.len() as u64 {
        return Err(GcError::BadHeap);
    }
    let top: usize = ((heap_ptr - start) / 8) as usize;
    assert(heap_ptr == start + 8 * top);
    let roots: Vec<usize> = match root_slots(stack, stack_base, fp, sp) {
        Some(v) => v,
        None => {
            return Err(GcError::BadStack);
        },
    };
    if !mark_heap(heap, top) {
        return Err(GcError::BadHeap);
    }
    if !mark_roots(heap, top, stack, &roots) {
        return Err(GcError::BadHeap);
    }
    let mut table: HashMap<u64, u64> = HashMap::new();
    if forward(heap, top, &mut table).is_none() {
        return Err(GcError::BadHeap);
    }
    if !update_heap(heap, top, &table) {
        return Err(GcError::BadHeap);
    }
    if !update_roots(stack, &table, &roots) {
        return Err(GcError::BadHeap);
    }
    match compact(heap, top) {
        None => Err(GcError::BadHeap),
        Some(removed) => Ok(heap_ptr - 8 * (removed as u64)),
    }
}

/// Whether `count` words are free between a heap pointer and the end of the heap.
pub open spec fn has_room(heap: Region, heap_ptr: u64, count: i64) -> bool {
    addr_of(heap.start, heap.words@.len() as int) - heap_ptr >= 8 * count
}

/// Collects, and then asks for `count` free words: the new heap pointer if
/// there is that much room above it, `OutOfMemory` if not.
pub fn snek_try_gc(heap: &mut Region, count: i64, heap_ptr: u64, stack: &mut Region, stack_base: u64, fp: u64, sp: u64) -> (r: Result<u64, GcError>)
    requires
        old(heap).valid(),
        old(stack).valid(),
    ensures
        final(heap).start == old(heap).start,
        final(stack).start == old(stack).start,
        final(heap).valid(),
        final(stack).valid(),
        final(heap).words@.len() == old(heap).words@.len(),
        final(stack).words@.len() == old(stack).words@.len(),
        final(heap).words@ == snek_gc_spec(*old(heap), heap_ptr, *old(stack), stack_base, fp, sp).heap,
        final(stack).words@ == snek_gc_spec(*old(heap), heap_ptr, *old(stack), stack_base, fp, sp).stack,
        r == (match snek_gc_spec(*old(heap), heap_ptr, *old(stack), stack_base, fp, sp).result {
            Ok(p) => if has_room(*old(heap), p, count) {
                Ok(p)
            } else {
                Err(GcError::OutOfMemory)
            },
            Err(e) => Err(e),
        }),
        collectable(*old(heap), heap_ptr, *old(stack), stack_base, fp, sp) ==> (r.is_ok() || r == Err::<u64, GcError>(
            GcError::OutOfMemory,
        )),
        collectable(*old(heap), heap_ptr, *old(stack), stack_base, fp, sp) && r.is_ok() ==> collectable(
            *final(heap),
            r.unwrap(),
            *final(stack),
            stack_base,
            fp,
            sp,
        ),
{
    match snek_gc(heap, heap_ptr, stack, stack_base, fp, sp) {
        Err(e) => Err(e),
        Ok(p) => {
            let free: u64 = heap.end() - p;
            if count > 0 && (free as u128) < 8 * (count as u128) {
                Err(GcError::OutOfMemory)
            } else {
                Ok(p)
            }
        },
    }
}

} // verus!
