use vstd::prelude::*;

use crate::big5::{
    decode_spec, lead_ok, lemma_replacement_step, lemma_run_facts, lemma_step_small, prepend,
    replacement_len, run, run_with_replacement, step, utf16_bound, utf8_bound,
    utf8_bound_with_replacement, Outcome, Step,
};
use crate::index::Big5Index;
use crate::result::DecoderResult;
use crate::unicode::{encoded_len, lemma_encoded_len_append, utf16_of, utf8_of};

verus! {

/// A decode call from input position `i` into an output with no bound.
pub open spec fn decode_all(idx: &Big5Index, lead: u8, src: Seq<u8>, i: int, last: bool) -> Outcome
    decreases src.len() - i,
{
    if i >= src.len() {
        if last && lead != 0 {
            Outcome { result: DecoderResult::Malformed(1), read: i, lead: 0, cps: Seq::empty() }
        } else {
            Outcome { result: DecoderResult::InputEmpty, read: i, lead, cps: Seq::empty() }
        }
    } else {
        match step(idx, lead, src[i]) {
            Step::Emit(e, next) => prepend(e, decode_all(idx, next, src, i + 1, last)),
            Step::Malformed(n, unread) => Outcome {
                result: DecoderResult::Malformed(n),
                read: if unread {
                    i
                } else {
                    i + 1
                },
                lead: 0,
                cps: Seq::empty(),
            },
        }
    }
}

/// The output room that decoding `n` more bytes with pending lead `lead` can
/// ask for.
pub open spec fn room_for(lead: u8, n: int, wide: bool) -> int {
    let m = n + if lead == 0 {
        0int
    } else {
        1int
    };
    if wide {
        m + 1
    } else {
        2 * m + 4
    }
}

/// The buffer length that the decoder's sizing function gives.
pub open spec fn sized(lead: u8, n: int, wide: bool) -> int {
    if wide {
        utf16_bound(lead, n)
    } else {
        utf8_bound(lead, n)
    }
}

/// With the room that `room_for` gives, a call runs as if the output had no
/// bound, and never reports a full output.
pub proof fn lemma_room_suffices(
    idx: &Big5Index,
    lead: u8,
    src: Seq<u8>,
    i: int,
    room: int,
    last: bool,
    wide: bool,
)
    requires
        lead_ok(lead),
        0 <= i <= src.len(),
        room >= room_for(lead, src.len() - i, wide),
    ensures
        run(idx, lead, src, i, room, last, wide) == decode_all(idx, lead, src, i, last),
        decode_all(idx, lead, src, i, last).result != DecoderResult::OutputFull,
        lead_ok(decode_all(idx, lead, src, i, last).lead),
    decreases src.len() - i,
{
    if i < src.len() {
        lemma_step_small(idx, lead, src[i], wide);
        match step(idx, lead, src[i]) {
            Step::Emit(e, next) => {
                lemma_room_suffices(
                    idx,
                    next,
                    src,
                    i + 1,
                    room - encoded_len(e, wide),
                    last,
                    wide,
                );
            },
            Step::Malformed(_, _) => {},
        }
    }
}

/// Decoding the input `a + b` from a position inside `a` reads the same as
/// decoding `b` alone, shifted by the length of `a`.
proof fn lemma_shift(idx: &Big5Index, lead: u8, a: Seq<u8>, b: Seq<u8>, j: int, last: bool)
    requires
        0 <= j <= b.len(),
    ensures
        ({
            let o = decode_all(idx, lead, b, j, last);
            decode_all(idx, lead, a + b, a.len() + j, last) == Outcome {
                result: o.result,
                read: o.read + a.len(),
                lead: o.lead,
                cps: o.cps,
            }
        }),
    decreases b.len() - j,
{
    if j < b.len() {
        assert((a + b)[a.len() + j] == b[j]);
        match step(idx, lead, b[j]) {
            Step::Emit(e, next) => {
                lemma_shift(idx, next, a, b, j + 1, last);
            },
            Step::Malformed(_, _) => {},
        }
    }
}

/// Decoding `a + b` from position `i` inside `a` first decodes `a` as a
/// non-final chunk; where that takes all of `a`, the rest goes on from the
/// lead byte it left.
proof fn lemma_split(idx: &Big5Index, lead: u8, a: Seq<u8>, b: Seq<u8>, i: int, last: bool)
    requires
        0 <= i <= a.len(),
    ensures
        ({
            let o1 = decode_all(idx, lead, a, i, false);
            let whole = decode_all(idx, lead, a + b, i, last);
            &&& o1.result == DecoderResult::InputEmpty ==> o1.read == a.len() && whole == prepend(
                o1.cps,
                decode_all(idx, o1.lead, a + b, a.len() as int, last),
            )
            &&& o1.result != DecoderResult::InputEmpty ==> whole == o1
        }),
    decreases a.len() - i,
{
    if i == a.len() {
        let rest = decode_all(idx, lead, a + b, a.len() as int, last);
        assert(Seq::<u32>::empty() + rest.cps =~= rest.cps);
    } else {
        assert((a + b)[i] == a[i]);
        match step(idx, lead, a[i]) {
            Step::Emit(e, next) => {
                lemma_split(idx, next, a, b, i + 1, last);
                let o1 = decode_all(idx, next, a, i + 1, false);
                if o1.result == DecoderResult::InputEmpty {
                    let rest = decode_all(idx, o1.lead, a + b, a.len() as int, last);
                    assert(e + (o1.cps + rest.cps) =~= (e + o1.cps) + rest.cps);
                }
            },
            Step::Malformed(_, _) => {},
        }
    }
}

/// With buffers sized by the decoder's sizing functions, a decode call never
/// reports a full output.
pub proof fn lemma_sized_buffer_never_full(
    idx: &Big5Index,
    lead: u8,
    src: Seq<u8>,
    cap: int,
    last: bool,
    wide: bool,
)
    requires
        lead_ok(lead),
        cap >= sized(lead, src.len() as int, wide),
    ensures
        decode_spec(idx, lead, src, cap, last, wide).result != DecoderResult::OutputFull,
{
    lemma_room_suffices(idx, lead, src, 0, cap, last, wide);
}

/// Feeding an input in two chunks, the first not final, gives what one call on
/// the whole input gives: where the first call takes all of its chunk, the two
/// calls together read the whole input, write the same code points and end in
/// the same result and state; where it stops on a malformed sequence, the one
/// call stops there too. Each buffer is sized by the decoder's sizing function.
pub proof fn lemma_resumable(
    idx: &Big5Index,
    lead: u8,
    a: Seq<u8>,
    b: Seq<u8>,
    cap1: int,
    cap2: int,
    cap: int,
    last: bool,
    wide: bool,
)
    requires
        lead_ok(lead),
        cap1 >= sized(lead, a.len() as int, wide),
        cap2 >= sized(decode_spec(idx, lead, a, cap1, false, wide).lead, b.len() as int, wide),
        cap >= sized(lead, (a.len() + b.len()) as int, wide),
    ensures
        ({
            let first = decode_spec(idx, lead, a, cap1, false, wide);
            let second = decode_spec(idx, first.lead, b, cap2, last, wide);
            let whole = decode_spec(idx, lead, a + b, cap, last, wide);
            &&& first.result == DecoderResult::InputEmpty ==> {
                &&& first.read == a.len()
                &&& whole.result == second.result
                &&& whole.read == a.len() + second.read
                &&& whole.lead == second.lead
                &&& whole.cps == first.cps + second.cps
            }
            &&& first.result != DecoderResult::InputEmpty ==> whole == first
        }),
{
    lemma_room_suffices(idx, lead, a, 0, cap1, false, wide);
    lemma_room_suffices(idx, lead, a + b, 0, cap, last, wide);
    lemma_split(idx, lead, a, b, 0, last);
    let first = decode_all(idx, lead, a, 0, false);
    if first.result == DecoderResult::InputEmpty {
        lemma_room_suffices(idx, first.lead, b, 0, cap2, last, wide);
        lemma_shift(idx, first.lead, a, b, 0, last);
        assert(a.len() + 0 == a.len());
    }
}

/// The output room that decoding `n` more bytes with replacement can ask for.
pub open spec fn room_for_replacement(lead: u8, n: int, wide: bool) -> int {
    let m = n + if lead == 0 {
        0int
    } else {
        1int
    };
    if wide {
        m + 1
    } else {
        3 * m + 4
    }
}

/// With the room that `room_for_replacement` gives, a decode call never
/// reports a full output, and after a malformed sequence the room left once
/// U+FFFD is written is enough for the rest of the input.
proof fn lemma_room_suffices_for_replacement(
    idx: &Big5Index,
    lead: u8,
    src: Seq<u8>,
    i: int,
    room: int,
    last: bool,
    wide: bool,
)
    requires
        lead_ok(lead),
        0 <= i <= src.len(),
        room >= room_for_replacement(lead, src.len() - i, wide),
    ensures
        ({
            let o = run(idx, lead, src, i, room, last, wide);
            &&& o.result != DecoderResult::OutputFull
            &&& o.result is Malformed ==> room - encoded_len(o.cps, wide) - replacement_len(wide)
                >= room_for_replacement(0, src.len() - o.read, wide)
        }),
    decreases src.len() - i,
{
    assert(utf16_of(Seq::<u32>::empty()) =~= Seq::<u16>::empty());
    assert(utf8_of(Seq::<u32>::empty()) =~= Seq::<u8>::empty());
    if i < src.len() {
        lemma_step_small(idx, lead, src[i], wide);
        match step(idx, lead, src[i]) {
            Step::Emit(e, next) => {
                let sub = run(idx, next, src, i + 1, room - encoded_len(e, wide), last, wide);
                lemma_room_suffices_for_replacement(
                    idx,
                    next,
                    src,
                    i + 1,
                    room - encoded_len(e, wide),
                    last,
                    wide,
                );
                lemma_encoded_len_append(e, sub.cps, wide);
            },
            Step::Malformed(_, _) => {},
        }
    }
}

/// The same for decoding with replacement, by induction over its calls.
proof fn lemma_replacement_never_full(
    idx: &Big5Index,
    lead: u8,
    src: Seq<u8>,
    i: int,
    room: int,
    last: bool,
    wide: bool,
)
    requires
        lead_ok(lead),
        0 <= i <= src.len(),
        room >= room_for_replacement(lead, src.len() - i, wide),
    ensures
        run_with_replacement(idx, lead, src, i, room, last, wide).0.result
            != DecoderResult::OutputFull,
    decreases 2 * (src.len() - i) + if lead == 0 {
        0int
    } else {
        1int
    },
{
    lemma_replacement_step(idx, lead, src, i, room, last, wide);
    lemma_run_facts(idx, lead, src, i, room, last, wide);
    lemma_room_suffices_for_replacement(idx, lead, src, i, room, last, wide);
    let o = run(idx, lead, src, i, room, last, wide);
    if o.result is Malformed {
        lemma_replacement_never_full(
            idx,
            0,
            src,
            o.read,
            room - encoded_len(o.cps, wide) - replacement_len(wide),
            last,
            wide,
        );
    }
}

/// With a UTF-16 buffer sized by the decoder's UTF-16 sizing function, or a
/// UTF-8 buffer sized by its sizing function for replacement, decoding with
/// replacement never reports a full output.
pub proof fn lemma_sized_buffer_never_full_with_replacement(
    idx: &Big5Index,
    lead: u8,
    src: Seq<u8>,
    cap: int,
    last: bool,
    wide: bool,
)
    requires
        lead_ok(lead),
        cap >= if wide {
            utf16_bound(lead, src.len() as int)
        } else {
            utf8_bound_with_replacement(lead, src.len() as int)
        },
    ensures
        run_with_replacement(idx, lead, src, 0, cap, last, wide).0.result
            != DecoderResult::OutputFull,
{
    lemma_replacement_never_full(idx, lead, src, 0, cap, last, wide);
}

} // verus!
