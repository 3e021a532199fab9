//! The text of a value. A vector is rendered with its elements, and a vector
//! met again inside itself as `[...]`.

use vstd::prelude::*;
use vstd::string::StringExecFns;
use std::collections::HashSet;
use crate::value::{Value, decode, decode_spec};
use crate::heap::{Region, addr_in, addr_of, index_of};
use crate::collector::{object_fits, object_size};
use crate::text::{decimal, decimal_text};

verus! {

broadcast use vstd::std_specs::hash::group_hash_axioms;

/// The reference points to an object that lies in the heap with all its elements.
pub open spec fn is_vector(heap: Region, w: u64) -> bool {
    let n = heap.words@.len() as int;
    addr_in(heap.start, w - 1, n) && object_fits(heap.words@, index_of(heap.start, w - 1), n)
}

/// The text of a word. `open` holds the references to the vectors that are
/// being rendered around it; `depth` is how many more vectors may open inside
/// one another, and a vector beyond that is rendered like one that is open.
pub open spec fn render(heap: Region, w: u64, open: Set<u64>, depth: nat) -> Seq<char>
    decreases depth, 0nat,
{
    match decode_spec(w) {
        Value::Bool(true) => "true"@,
        Value::Bool(false) => "false"@,
        Value::Int(n) => decimal_text(n as int),
        Value::Nil => "nil"@,
        Value::VecRef(a) => {
            if !is_vector(heap, w) {
                "unknown value: "@ + decimal_text(w as int)
            } else if open.contains(w) || depth == 0 {
                "[...]"@
            } else {
                let obj = index_of(heap.start, a as int);
                "["@ + render_elements(heap, obj, 0, heap.words@[obj + 1] as int, open.insert(w), (depth - 1) as nat)
                    + "]"@
            }
        },
    }
}

/// The text of the elements `i..size` of the object at `obj`, with `, `
/// between two of them.
pub open spec fn render_elements(heap: Region, obj: int, i: int, size: int, open: Set<u64>, depth: nat) -> Seq<char>
    decreases depth, (if i < size { size - i + 1 } else { 0 }) as nat,
{
    if i >= size {
        Seq::empty()
    } else {
        render(heap, heap.words@[obj + 2 + i], open, depth) + (if i < size - 1 {
            ", "@
        } else {
            Seq::empty()
        }) + render_elements(heap, obj, i + 1, size, open, depth)
    }
}

/// Renders a word, with `depth` more vectors allowed to open inside one another.
pub fn render_value(heap: &Region, val: u64, seen: &mut HashSet<u64>, depth: usize) -> (s: String)
    requires
        heap.valid(),
    ensures
        final(seen)@ == old(seen)@,
        s@ == render(*heap, val, old(seen)@, depth as nat),
    decreases depth,
{
    match decode(val) {
        Value::Bool(b) => {
            if b {
                String::from_str("true")
            } else {
                String::from_str("false")
            }
        },
        Value::Int(n) => decimal(n as i128),
        Value::Nil => String::from_str("nil"),
        Value::VecRef(a) => {
            let n: usize = heap.words.len();
            let found: Option<usize> = match heap.index(a, n) {
                Some(obj) => match object_size(heap, n, obj) {
                    Some(size) => Some(obj),
                    None => None,
                },
                None => None,
            };
            match found {
                None => {
                    let mut res: String = String::from_str("unknown value: ");
                    let num: String = decimal(val as i128);
                    res.append(num.as_str());
                    res
                },
                Some(obj) => {
                    if depth == 0 || seen.contains(&val) {
                        return String::from_str("[...]");
                    }
                    let size: usize = heap.words[obj + 1] as usize;
                    let ghost inner = old(seen)@.insert(val);
                    seen.insert(val);
                    let mut res: String = String::from_str("[");
                    let mut i: usize = 0;
                    while i < size
                        invariant
                            i <= size,
                            depth > 0,
                            heap.valid(),
                            obj + 2 + size <= heap.words@.len(),
                            n == heap.words@.len(),
                            seen@ == inner,
                            "["@ + render_elements(*heap, obj as int, 0, size as int, inner, (depth - 1) as nat)
                                == res@ + render_elements(
                                *heap,
                                obj as int,
                                i as int,
                                size as int,
                                inner,
                                (depth - 1) as nat,
                            ),
                        decreases size - i,
                    {
                        let elem: u64 = heap.words[obj + 2 + i];
                        let ghost before = res@;
                        let ghost rest = render_elements(
                            *heap,
                            obj as int,
                            i + 1,
                            size as int,
                            inner,
                            (depth - 1) as nat,
                        );
                        let piece: String = render_value(heap, elem, seen, depth - 1);
                        res.append(piece.as_str());
                        if i < size - 1 {
                            res.append(", ");
                            assert(before + (piece@ + ", "@ + rest) =~= before + piece@ + ", "@ + rest);
                        } else {
                            assert(before + (piece@ + Seq::<char>::empty() + rest) =~= before + piece@ + rest);
                        }
                        i += 1;
                    }
                    seen.remove(&val);
                    assert(seen@ =~= old(seen)@);
                    res.append("]");
                    assert(res@ =~= "["@ + render_elements(
                        *heap,
                        obj as int,
                        0,
                        size as int,
                        inner,
                        (depth - 1) as nat,
                    ) + "]"@);
                    res
                },
            }
        },
    }
}

/// Renders a word as text: an integer in decimal, `true`, `false`, `nil`, a
/// vector as its elements in square brackets, a vector inside itself as `[...]`.
pub fn snek_str(heap: &Region, val: u64, seen: &mut HashSet<u64>) -> (s: String)
    requires
        heap.valid(),
    ensures
        final(seen)@ == old(seen)@,
        s@ == render(*heap, val, old(seen)@, heap.words@.len()),
        forall|d: nat| d >= heap.words@.len() ==> s@ == #[trigger] render(*heap, val, old(seen)@, d),
{
    proof {
        lemma_closed_bound(*heap, seen@, 0);
        assert forall|d: nat| d >= heap.words@.len() implies render(*heap, val, seen@, heap.words@.len()) == #[trigger] render(
            *heap,
            val,
            seen@,
            d,
        ) by {
            lemma_depth_is_enough(*heap, val, seen@, heap.words@.len(), d);
        }
    }
    render_value(heap, val, seen, heap.words.len())
}

/// The text that printing a value writes, without the line's end, and the
/// value itself, which printing hands back.
pub fn snek_print(heap: &Region, val: u64) -> (r: (String, u64))
    requires
        heap.valid(),
    ensures
        r.0@ == render(*heap, val, Set::empty(), heap.words@.len()),
        forall|d: nat| d >= heap.words@.len() ==> r.0@ == #[trigger] render(*heap, val, Set::empty(), d),
        r.1 == val,
{
    let mut seen: HashSet<u64> = HashSet::new();
    (snek_str(heap, val, &mut seen), val)
}

/// Printing is safe on cycles: a reference to a vector that is being rendered
/// around it is rendered as `[...]`, whatever the vector holds.
pub proof fn lemma_open_vector_renders_marker(heap: Region, w: u64, open: Set<u64>, depth: nat)
    requires
        crate::value::is_ref(w),
        is_vector(heap, w),
        open.contains(w),
    ensures
        render(heap, w, open, depth) == "[...]"@,
{
}

/// A vector whose first element is a reference to itself renders that element
/// as `[...]`.
pub proof fn lemma_self_reference_renders_marker(heap: Region, w: u64, depth: nat)
    requires
        crate::value::is_ref(w),
        is_vector(heap, w),
        depth > 0,
        heap.words@[index_of(heap.start, w - 1) + 1] == 1,
        heap.words@[index_of(heap.start, w - 1) + 2] == w,
    ensures
        render(heap, w, Set::empty(), depth) == "["@ + "[...]"@ + "]"@,
{
    let obj = index_of(heap.start, w - 1);
    let open = Set::<u64>::empty().insert(w);
    let d = (depth - 1) as nat;
    assert(render(heap, w, open, d) == "[...]"@);
    assert(render_elements(heap, obj, 1, 1, open, d) == Seq::<char>::empty());
    assert(render_elements(heap, obj, 0, 1, open, d) =~= "[...]"@) by {
        assert(render_elements(heap, obj, 0, 1, open, d) == render(heap, heap.words@[obj + 2 + 0], open, d) + Seq::<
            char,
        >::empty() + render_elements(heap, obj, 1, 1, open, d));
    }
}

/// The number of vectors at index `i` or above that are not open.
pub open spec fn closed_from(heap: Region, open: Set<u64>, i: int) -> nat
    decreases heap.words@.len() - i,
{
    if i >= heap.words@.len() {
        0
    } else {
        let w = (addr_of(heap.start, i) + 1) as u64;
        closed_from(heap, open, i + 1) + if is_vector(heap, w) && !open.contains(w) {
            1nat
        } else {
            0nat
        }
    }
}

/// There are no more vectors than words.
pub proof fn lemma_closed_bound(heap: Region, open: Set<u64>, i: int)
    requires
        0 <= i <= heap.words@.len(),
    ensures
        closed_from(heap, open, i) <= heap.words@.len() - i,
    decreases heap.words@.len() - i,
{
    if i < heap.words@.len() {
        lemma_closed_bound(heap, open, i + 1);
    }
}

/// Opening a vector that was not open leaves one vector fewer that is not open.
pub proof fn lemma_closed_after_open(heap: Region, open: Set<u64>, w: u64, i: int)
    requires
        heap.valid(),
        0 <= i <= heap.words@.len(),
        crate::value::is_ref(w),
        is_vector(heap, w),
        !open.contains(w),
    ensures
        closed_from(heap, open, i) == closed_from(heap, open.insert(w), i) + if i <= index_of(heap.start, w - 1) {
            1nat
        } else {
            0nat
        },
    decreases heap.words@.len() - i,
{
    if i < heap.words@.len() {
        lemma_closed_after_open(heap, open, w, i + 1);
        let here = (addr_of(heap.start, i) + 1) as u64;
        assert(here == heap.start + 8 * i + 1);
        assert(here == w <==> i == index_of(heap.start, w - 1));
    }
}

/// The depth allowed does not matter once it is the number of vectors that
/// are not open: no vector is cut short for want of depth.
pub proof fn lemma_depth_is_enough(heap: Region, w: u64, open: Set<u64>, d1: nat, d2: nat)
    requires
        heap.valid(),
        d1 >= closed_from(heap, open, 0),
        d2 >= closed_from(heap, open, 0),
    ensures
        render(heap, w, open, d1) == render(heap, w, open, d2),
    decreases d1, 0nat,
{
    if crate::value::is_ref(w) && is_vector(heap, w) && !open.contains(w) {
        lemma_closed_after_open(heap, open, w, 0);
        let obj = index_of(heap.start, w - 1);
        lemma_elements_depth_is_enough(
            heap,
            obj,
            0,
            heap.words@[obj + 1] as int,
            open.insert(w),
            (d1 - 1) as nat,
            (d2 - 1) as nat,
        );
    }
}

/// The depth allowed does not matter for the elements of a vector either.
pub proof fn lemma_elements_depth_is_enough(heap: Region, obj: int, i: int, size: int, open: Set<u64>, d1: nat, d2: nat)
    requires
        heap.valid(),
        d1 >= closed_from(heap, open, 0),
        d2 >= closed_from(heap, open, 0),
    ensures
        render_elements(heap, obj, i, size, open, d1) == render_elements(heap, obj, i, size, open, d2),
    decreases d1, (if i < size { size - i + 1 } else { 0 }) as nat,
{
    if i < size {
        lemma_depth_is_enough(heap, heap.words@[obj + 2 + i], open, d1, d2);
        lemma_elements_depth_is_enough(heap, obj, i + 1, size, open, d1, d2);
    }
}

} // verus!
