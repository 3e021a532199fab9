//! The root scanner: walks the chain of stack frames and lists every slot of
//! every frame. It does not look at what a slot holds, but for the saved frame
//! pointers that link the frames.

use vstd::prelude::*;
use crate::heap::{Region, addr_in, index_of};

verus! {

/// The slots of one frame, from the frame pointer down to the stack pointer,
/// both included; none where the stack pointer lies above the frame pointer.
pub open spec fn frame_slots(fp: int, sp: int) -> Seq<usize> {
    Seq::new((if fp >= sp { fp - sp + 1 } else { 0 }) as nat, |k: int| (fp - k) as usize)
}

/// The slots of the frame at `fp` and of every frame above it up to the one at
/// `base`. The word at a frame pointer holds the address of the next frame
/// pointer, which must lie higher in the stack; the next frame's slots begin
/// two words above the frame pointer. `None` where a link leaves the stack or
/// does not lead upwards.
pub open spec fn chain_slots(start: u64, words: Seq<u64>, base: int, fp: int, sp: int) -> Option<Seq<usize>>
    decreases words.len() - fp,
{
    if fp == base {
        Some(frame_slots(fp, sp))
    } else if addr_in(start, words[fp] as int, words.len() as int) && index_of(start, words[fp] as int) > fp {
        match chain_slots(start, words, base, index_of(start, words[fp] as int), fp + 2) {
            Some(rest) => Some(frame_slots(fp, sp) + rest),
            None => None,
        }
    } else {
        None
    }
}

/// The root slots for a stack base, a frame pointer and a stack pointer given
/// as byte addresses: `None` unless the first two are addresses of stack words
/// and the third is a word address in the stack or just above it.
pub open spec fn root_slots_spec(stack: Region, stack_base: u64, fp: u64, sp: u64) -> Option<Seq<usize>> {
    let n = stack.words@.len() as int;
    if addr_in(stack.start, stack_base as int, n) && addr_in(stack.start, fp as int, n) && addr_in(
        stack.start,
        sp as int,
        n + 1,
    ) {
        chain_slots(
            stack.start,
            stack.words@,
            index_of(stack.start, stack_base as int),
            index_of(stack.start, fp as int),
            index_of(stack.start, sp as int),
        )
    } else {
        None
    }
}

/// Lists the indices of the stack words that the collector treats as roots,
/// in the order in which it visits them.
pub fn root_slots(stack: &Region, stack_base: u64, fp: u64, sp: u64) -> (r: Option<Vec<usize>>)
    requires
        stack.valid(),
    ensures
        r.is_some() == root_slots_spec(*stack, stack_base, fp, sp).is_some(),
        r.is_some() ==> r.unwrap()@ == root_slots_spec(*stack, stack_base, fp, sp).unwrap(),
        r.is_some() ==> forall|k: int| 0 <= k < r.unwrap()@.len() ==> r.unwrap()@[k] < stack.words@.len(),
{
    let n: usize = stack.words.len();
    let base_i: usize = match stack.index(stack_base, n) {
        Some(i) => i,
        None => {
            return None;
        },
    };
    let fp_i: usize = match stack.index(fp, n) {
        Some(i) => i,
        None => {
            return None;
        },
    };
    if sp < stack.start || (sp - stack.start) % 8 != 0 || (sp - stack.start) / 8 > n as u64 {
        return None;
    }
    let sp_i: u64 = (sp - stack.start) / 8;
    let mut acc: Vec<usize> = Vec::new();
    let mut cur_fp: usize = fp_i;
    let mut cur_sp: u64 = sp_i;
    loop
        invariant
            stack.valid(),
            n == stack.words@.len(),
            base_i < n,
            cur_fp < n,
            cur_sp <= n + 1,
            forall|k: int| 0 <= k < acc@.len() ==> acc@[k] < n,
            root_slots_spec(*stack, stack_base, fp, sp) == chain_slots(
                stack.start,
                stack.words@,
                base_i as int,
                fp_i as int,
                sp_i as int,
            ),
            chain_slots(stack.start, stack.words@, base_i as int, fp_i as int, sp_i as int) == (match chain_slots(
                stack.start,
                stack.words@,
                base_i as int,
                cur_fp as int,
                cur_sp as int,
            ) {
                Some(rest) => Some(acc@ + rest),
                None => None,
            }),
        decreases n - cur_fp,
    {
        let ghost before = acc@;
        let ghost frame = frame_slots(cur_fp as int, cur_sp as int);
        let mut p: u64 = cur_fp as u64 + 1;
        while p > cur_sp
            invariant
                p <= cur_fp + 1,
                cur_fp < n,
                n == stack.words@.len(),
                stack.valid(),
                p >= cur_sp || p == cur_fp + 1,
                forall|k: int| 0 <= k < acc@.len() ==> acc@[k] < n,
                acc@ == before + Seq::new((cur_fp + 1 - p) as nat, |k: int| (cur_fp - k) as usize),
            decreases p,
        {
            p = p - 1;
            acc.push(p as usize);
            assert(acc@ =~= before + Seq::new((cur_fp + 1 - p) as nat, |k: int| (cur_fp - k) as usize));
        }
        assert(acc@ =~= before + frame);
        if cur_fp == base_i {
            return Some(acc);
        }
        let saved: u64 = stack.words[cur_fp];
        match stack.index(saved, n) {
            None => {
                return None;
            },
            Some(next) => {
                if next <= cur_fp {
                    return None;
                }
                proof {
                    match chain_slots(stack.start, stack.words@, base_i as int, next as int, cur_fp + 2) {
                        Some(rest) => {
                            assert(before + (frame + rest) =~= (before + frame) + rest);
                        },
                        None => {},
                    }
                }
                cur_sp = cur_fp as u64 + 2;
                cur_fp = next;
            },
        }
    }
}

} // verus!
