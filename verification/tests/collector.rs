use snek_runtime::collector::{
    compact, forward, mark_heap, mark_roots, snek_gc, snek_try_gc, update_heap, update_roots, GcError,
};
use snek_runtime::heap::Region;
use snek_runtime::printer::snek_print;
use snek_runtime::roots::root_slots;
use std::collections::HashMap;

const HEAP: u64 = 0x1000;
const STACK: u64 = 0x8000;

fn heap_of(words: &[u64], len: usize) -> Region {
    let mut r = Region::new(HEAP, len).unwrap();
    for (i, w) in words.iter().enumerate() {
        r.words[i] = *w;
    }
    r
}

fn stack_of(words: &[u64]) -> Region {
    Region { start: STACK, words: words.to_vec() }
}

// Four vectors: a = [1], b = [a, 2], c = [] (nothing refers to it), d = [b].
fn four_objects() -> Region {
    heap_of(&[0, 1, 2, 0, 2, 0x1001, 4, 0, 0, 0, 1, 0x1019], 16)
}

#[test]
fn collection_drops_the_unreferenced_vector() {
    let mut heap = four_objects();
    let mut stack = stack_of(&[0x1049, 20, 7, 0]);
    let r = snek_gc(&mut heap, HEAP + 96, &mut stack, STACK + 24, STACK + 24, STACK);
    assert_eq!(r, Ok(HEAP + 80));
    assert_eq!(&heap.words[..10], &[0x1000, 1, 2, 0x1018, 2, 0x1001, 4, 0x1038, 1, 0x1019]);
    assert_eq!(stack.words, vec![0x1039, 20, 7, 0]);
}

#[test]
fn reachable_vectors_keep_their_elements() {
    let mut heap = four_objects();
    let before = snek_print(&heap, 0x1049).0;
    let mut stack = stack_of(&[0x1049, 20, 7, 0]);
    snek_gc(&mut heap, HEAP + 96, &mut stack, STACK + 24, STACK + 24, STACK).unwrap();
    let after = snek_print(&heap, stack.words[0]).0;
    assert_eq!(before, "[[[1], 2]]");
    assert_eq!(after, "[[[1], 2]]");
}

#[test]
fn references_after_collection_point_below_the_new_heap_pointer() {
    let mut heap = four_objects();
    let mut stack = stack_of(&[0x1049, 20, 7, 0]);
    let top = snek_gc(&mut heap, HEAP + 96, &mut stack, STACK + 24, STACK + 24, STACK).unwrap();
    let live = ((top - HEAP) / 8) as usize;
    let headers = [0usize, 3, 7];
    let mut refs: Vec<u64> = vec![heap.words[5], heap.words[9], stack.words[0]];
    refs.sort();
    for r in refs {
        let i = ((r - 1 - HEAP) / 8) as usize;
        assert!(i < live);
        assert!(headers.contains(&i));
    }
}

#[test]
fn live_objects_lie_back_to_back() {
    let mut heap = four_objects();
    let mut stack = stack_of(&[0x1049, 20, 7, 0]);
    let top = snek_gc(&mut heap, HEAP + 96, &mut stack, STACK + 24, STACK + 24, STACK).unwrap();
    let live = ((top - HEAP) / 8) as usize;
    let mut obj = 0usize;
    let mut count = 0;
    while obj < live {
        assert_eq!(heap.words[obj], HEAP + 8 * obj as u64);
        obj += 2 + heap.words[obj + 1] as usize;
        count += 1;
    }
    assert_eq!(obj, live);
    assert_eq!(count, 3);
}

#[test]
fn second_collection_changes_nothing() {
    let mut heap = four_objects();
    let mut stack = stack_of(&[0x1049, 20, 7, 0]);
    let top = snek_gc(&mut heap, HEAP + 96, &mut stack, STACK + 24, STACK + 24, STACK).unwrap();
    let words = heap.words.clone();
    let roots = stack.words.clone();
    let again = snek_gc(&mut heap, top, &mut stack, STACK + 24, STACK + 24, STACK);
    assert_eq!(again, Ok(top));
    assert_eq!(heap.words, words);
    assert_eq!(stack.words, roots);
}

#[test]
fn vector_referenced_only_by_a_dead_vector_is_kept_once() {
    // a = [] is referenced by b = [a] alone, and nothing refers to b.
    let mut heap = heap_of(&[0, 0, 0, 1, 0x1001], 8);
    let mut stack = stack_of(&[0]);
    let top = snek_gc(&mut heap, HEAP + 40, &mut stack, STACK, STACK, STACK).unwrap();
    assert_eq!(top, HEAP + 16);
    let again = snek_gc(&mut heap, top, &mut stack, STACK, STACK, STACK).unwrap();
    assert_eq!(again, HEAP);
}

#[test]
fn cyclic_vectors_survive_together() {
    // a = [b], b = [a], and one root refers to a.
    let mut heap = heap_of(&[0, 0, 0, 1, 0x1029, 0, 1, 0x1011], 8);
    let mut stack = stack_of(&[0x1011]);
    let top = snek_gc(&mut heap, HEAP + 64, &mut stack, STACK, STACK, STACK).unwrap();
    assert_eq!(top, HEAP + 48);
    assert_eq!(&heap.words[..6], &[0x1000, 1, 0x1019, 0x1018, 1, 0x1001]);
    assert_eq!(stack.words, vec![0x1001]);
    assert_eq!(snek_print(&heap, 0x1001).0, "[[[...]]]");
}

#[test]
fn empty_heap_collects_to_itself() {
    let mut heap = heap_of(&[], 4);
    let mut stack = stack_of(&[2, 4]);
    assert_eq!(snek_gc(&mut heap, HEAP, &mut stack, STACK + 8, STACK + 8, STACK), Ok(HEAP));
    assert_eq!(heap.words, vec![0, 0, 0, 0]);
}

#[test]
fn passes_one_by_one() {
    let mut heap = four_objects();
    let stack = stack_of(&[0x1049, 20, 7, 0]);
    let roots = root_slots(&stack, STACK + 24, STACK + 24, STACK).unwrap();
    assert_eq!(roots, vec![3, 2, 1, 0]);
    assert!(mark_heap(&mut heap, 12));
    assert_eq!(&heap.words[..12], &[1, 1, 2, 1, 2, 0x1001, 4, 0, 0, 0, 1, 0x1019]);
    assert!(mark_roots(&mut heap, 12, &stack, &roots));
    assert_eq!(heap.words[9], 1);
    let mut table = HashMap::new();
    assert_eq!(forward(&mut heap, 12, &mut table), Some(10));
    assert_eq!(table.len(), 3);
    assert_eq!(table[&0x1001], 0x1001);
    assert_eq!(table[&0x1019], 0x1019);
    assert_eq!(table[&0x1049], 0x1039);
    assert_eq!(heap.words[9], 0x1038);
    assert!(update_heap(&mut heap, 12, &table));
    let mut stack = stack;
    assert!(update_roots(&mut stack, &table, &roots));
    assert_eq!(stack.words[0], 0x1039);
    assert_eq!(compact(&mut heap, 12), Some(2));
    assert_eq!(&heap.words[7..10], &[0x1038, 1, 0x1019]);
}

#[test]
fn stale_mark_words_do_not_keep_an_object() {
    let mut heap = heap_of(&[0x1000, 0, 0x1010, 0], 4);
    let mut stack = stack_of(&[0x1011]);
    let top = snek_gc(&mut heap, HEAP + 32, &mut stack, STACK, STACK, STACK).unwrap();
    assert_eq!(top, HEAP + 16);
    assert_eq!(stack.words, vec![0x1001]);
    assert_eq!(&heap.words[..2], &[0x1000, 0]);
}

#[test]
fn reference_outside_the_heap_is_refused() {
    let mut heap = heap_of(&[0, 1, 0x2001], 4);
    let mut stack = stack_of(&[0]);
    assert_eq!(snek_gc(&mut heap, HEAP + 24, &mut stack, STACK, STACK, STACK), Err(GcError::BadHeap));
    let mut heap = heap_of(&[0, 0], 4);
    let mut stack = stack_of(&[0x1005]);
    assert_eq!(snek_gc(&mut heap, HEAP + 16, &mut stack, STACK, STACK, STACK), Err(GcError::BadHeap));
}

#[test]
fn object_that_overruns_the_heap_pointer_is_refused() {
    let mut heap = heap_of(&[0, 3, 0], 8);
    let mut stack = stack_of(&[0]);
    assert_eq!(snek_gc(&mut heap, HEAP + 24, &mut stack, STACK, STACK, STACK), Err(GcError::BadHeap));
    assert_eq!(snek_gc(&mut heap, HEAP + 4, &mut stack, STACK, STACK, STACK), Err(GcError::BadHeap));
    assert_eq!(snek_gc(&mut heap, HEAP + 800, &mut stack, STACK, STACK, STACK), Err(GcError::BadHeap));
}

#[test]
fn broken_frame_chain_is_refused() {
    let mut heap = heap_of(&[], 4);
    // the saved frame pointer leads downwards
    let mut stack = stack_of(&[0, 0, STACK, 0]);
    assert_eq!(snek_gc(&mut heap, HEAP, &mut stack, STACK + 24, STACK + 16, STACK), Err(GcError::BadStack));
    // the frame pointer is no stack address
    assert_eq!(snek_gc(&mut heap, HEAP, &mut stack, STACK + 24, STACK + 64, STACK), Err(GcError::BadStack));
    assert_eq!(snek_gc(&mut heap, HEAP, &mut stack, STACK + 24, STACK + 3, STACK), Err(GcError::BadStack));
}

#[test]
fn frames_are_walked_up_to_the_base() {
    let stack = stack_of(&[2, 4, STACK + 48, 0xdead0, 6, 8, 0, 0]);
    let roots = root_slots(&stack, STACK + 48, STACK + 16, STACK).unwrap();
    assert_eq!(roots, vec![2, 1, 0, 6, 5, 4]);
    let roots = root_slots(&stack, STACK + 48, STACK + 16, STACK + 24).unwrap();
    assert_eq!(roots, vec![6, 5, 4]);
    assert_eq!(root_slots(&stack, STACK + 56, STACK + 16, STACK), None);
}

#[test]
fn roots_in_an_outer_frame_are_updated() {
    // garbage = [], then v = [3]; the outer frame holds the only reference to v.
    let mut heap = heap_of(&[0, 0, 0, 1, 6], 8);
    let mut stack = stack_of(&[2, 4, STACK + 48, 0xdead0, 0x1011, 8, 0, 0]);
    let top = snek_gc(&mut heap, HEAP + 40, &mut stack, STACK + 48, STACK + 16, STACK).unwrap();
    assert_eq!(top, HEAP + 24);
    assert_eq!(stack.words, vec![2, 4, STACK + 48, 0xdead0, 0x1001, 8, 0, 0]);
    assert_eq!(snek_print(&heap, 0x1001).0, "[3]");
}

#[test]
fn out_of_memory_when_collection_frees_too_little() {
    // a heap of 5 words cannot take the 7 words of a vector of 5 elements
    let mut heap = heap_of(&[], 5);
    let mut stack = stack_of(&[0]);
    let r = snek_try_gc(&mut heap, 7, HEAP, &mut stack, STACK, STACK, STACK);
    assert_eq!(r, Err(GcError::OutOfMemory));
}

#[test]
fn try_gc_returns_the_pointer_when_there_is_room() {
    let mut heap = heap_of(&[0, 1, 2, 0, 0], 8);
    let mut stack = stack_of(&[0x1019]);
    // the first vector goes, 6 words are free: 6 fit, 7 do not
    let r = snek_try_gc(&mut heap, 6, HEAP + 40, &mut stack, STACK, STACK, STACK);
    assert_eq!(r, Ok(HEAP + 16));
    let mut heap = heap_of(&[0, 1, 2, 0, 0], 8);
    let mut stack = stack_of(&[0x1019]);
    let r = snek_try_gc(&mut heap, 7, HEAP + 40, &mut stack, STACK, STACK, STACK);
    assert_eq!(r, Err(GcError::OutOfMemory));
}

#[test]
fn linked_list_survives_a_collection() {
    // nodes [value, next], each followed by a dead vector of no elements
    let mut words: Vec<u64> = Vec::new();
    let mut next: u64 = 1;
    for v in (1..=5u64).rev() {
        let at = words.len() as u64;
        words.extend_from_slice(&[0, 2, v << 1, next]);
        next = HEAP + 8 * at + 1;
        words.extend_from_slice(&[0, 0]);
    }
    let mut heap = heap_of(&words, 40);
    let mut stack = stack_of(&[next]);
    let walk = |heap: &Region, mut node: u64| {
        let mut out: Vec<String> = Vec::new();
        while node != 1 {
            let i = ((node - 1 - HEAP) / 8) as usize;
            out.push(snek_print(heap, heap.words[i + 2]).0);
            node = heap.words[i + 3];
        }
        out.push(snek_print(heap, node).0);
        out.join("\n")
    };
    assert_eq!(walk(&heap, next), "1\n2\n3\n4\n5\nnil");
    let top = snek_try_gc(&mut heap, 7, HEAP + 240, &mut stack, STACK, STACK, STACK).unwrap();
    assert_eq!(top, HEAP + 160);
    assert_eq!(walk(&heap, stack.words[0]), "1\n2\n3\n4\n5\nnil");
    assert_eq!(snek_print(&heap, stack.words[0]).0, "[1, [2, [3, [4, [5, nil]]]]]");
}
