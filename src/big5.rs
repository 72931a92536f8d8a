use vstd::prelude::*;

use crate::index::Big5Index;
use crate::result::DecoderResult;
use crate::unicode::{
    encoded_len, lemma_encode_one, lemma_encode_two, lemma_encoded_len_append, lemma_utf16_append,
    lemma_utf8_append, room_needed, utf16_of, utf8_of, write_utf16, write_utf8,
};

verus! {

/// A pending lead byte: 0 for none, else a Big5 lead byte.
pub open spec fn lead_ok(lead: u8) -> bool {
    lead == 0 || (0x81 <= lead && lead <= 0xFE)
}

/// A byte that may follow a lead byte.
pub open spec fn is_trail(b: u8) -> bool {
    (0x40 <= b && b <= 0x7E) || (0xA1 <= b && b <= 0xFE)
}

/// The index pointer of a lead byte and a trail byte.
pub open spec fn pointer_of(lead: u8, b: u8) -> int {
    (lead - 0x81) * 157 + (b - if b < 0x7F {
        0x40int
    } else {
        0x62int
    })
}

/// The two code points of the four pointers that stand for a letter with a
/// combining mark.
pub open spec fn combination(p: int) -> Option<(u32, u32)> {
    if p == 1133 {
        Some((0x00CA, 0x0304))
    } else if p == 1135 {
        Some((0x00CA, 0x030C))
    } else if p == 1164 {
        Some((0x00EA, 0x0304))
    } else if p == 1166 {
        Some((0x00EA, 0x030C))
    } else {
        None
    }
}

/// What one input byte does to the decoder.
pub enum Step {
    /// The code points are written and the pending lead byte becomes the
    /// second field (0 for none).
    Emit(Seq<u32>, u8),
    /// A malformed sequence of this many bytes; with the flag set the byte is
    /// put back to be read again.
    Malformed(u8, bool),
}

/// A trail byte that does not complete its lead byte: one that may be ASCII is
/// put back and only the lead is malformed; any other is dropped with it.
pub open spec fn bad_trail(b: u8) -> Step {
    if b <= 0x7F {
        Step::Malformed(1, true)
    } else {
        Step::Malformed(2, false)
    }
}

/// The transition of the decoder on byte `b` with pending lead `lead`.
pub open spec fn step(idx: &Big5Index, lead: u8, b: u8) -> Step {
    if lead == 0 {
        if b <= 0x7F {
            Step::Emit(seq![b as u32], 0)
        } else if 0x81 <= b && b <= 0xFE {
            Step::Emit(Seq::empty(), b)
        } else {
            Step::Malformed(1, false)
        }
    } else if is_trail(b) {
        let p = pointer_of(lead, b);
        match combination(p) {
            Some((c, d)) => Step::Emit(seq![c, d], 0),
            None => match idx.code_point_at(p) {
                Some(c) => Step::Emit(seq![c], 0),
                None => bad_trail(b),
            },
        }
    } else {
        bad_trail(b)
    }
}

/// The end of one decode call: why it returned, where it stopped reading,
/// the pending lead byte it left, and the code points it wrote.
pub struct Outcome {
    pub result: DecoderResult,
    pub read: int,
    pub lead: u8,
    pub cps: Seq<u32>,
}

/// `o` with the code points `c` written before its own.
pub open spec fn prepend(c: Seq<u32>, o: Outcome) -> Outcome {
    Outcome { result: o.result, read: o.read, lead: o.lead, cps: c + o.cps }
}

/// A decode call from input position `i` with pending lead `lead` and `room`
/// output units free (UTF-16 code units when `wide`, else UTF-8 bytes).
pub open spec fn run(
    idx: &Big5Index,
    lead: u8,
    src: Seq<u8>,
    i: int,
    room: int,
    last: bool,
    wide: bool,
) -> Outcome
    decreases src.len() - i,
{
    if i >= src.len() {
        if last && lead != 0 {
            Outcome { result: DecoderResult::Malformed(1), read: i, lead: 0, cps: Seq::empty() }
        } else {
            Outcome { result: DecoderResult::InputEmpty, read: i, lead, cps: Seq::empty() }
        }
    } else if room < room_needed(wide) {
        Outcome { result: DecoderResult::OutputFull, read: i, lead, cps: Seq::empty() }
    } else {
        match step(idx, lead, src[i]) {
            Step::Emit(e, next) => prepend(
                e,
                run(idx, next, src, i + 1, room - encoded_len(e, wide), last, wide),
            ),
            Step::Malformed(n, unread) => Outcome {
                result: DecoderResult::Malformed(n),
                read: if unread {
                    i
                } else {
                    i + 1
                },
                lead: 0,
                cps: Seq::empty(),
            },
        }
    }
}

/// A decode call on all of `src` into a buffer of `cap` units.
pub open spec fn decode_spec(
    idx: &Big5Index,
    lead: u8,
    src: Seq<u8>,
    cap: int,
    last: bool,
    wide: bool,
) -> Outcome {
    run(idx, lead, src, 0, cap, last, wide)
}

/// What the executable step decides, in a form that it can return.
enum Action {
    Pending(u8),
    One(u32),
    Two(u32, u32),
    Bad(u8, bool),
}

impl Action {
    spec fn as_step(self) -> Step {
        match self {
            Action::Pending(l) => Step::Emit(Seq::empty(), l),
            Action::One(c) => Step::Emit(seq![c], 0),
            Action::Two(c, d) => Step::Emit(seq![c, d], 0),
            Action::Bad(n, u) => Step::Malformed(n, u),
        }
    }

    spec fn small(self) -> bool {
        match self {
            Action::Pending(l) => l != 0 && lead_ok(l),
            Action::One(c) => c < 0x30000,
            Action::Two(c, d) => c < 0x800 && d < 0x800,
            Action::Bad(_, _) => true,
        }
    }
}

fn bad_trail_exec(b: u8) -> (a: Action)
    ensures
        a.as_step() == bad_trail(b),
        a.small(),
{
    if b <= 0x7F {
        Action::Bad(1, true)
    } else {
        Action::Bad(2, false)
    }
}

/// Decides what byte `b` does with pending lead `lead`.
fn decide(idx: &Big5Index, lead: u8, b: u8) -> (a: Action)
    requires
        lead_ok(lead),
    ensures
        a.as_step() == step(idx, lead, b),
        a.small(),
{
    if lead == 0 {
        if b <= 0x7F {
            return Action::One(b as u32);
        }
        if b >= 0x81 && b <= 0xFE {
            return Action::Pending(b);
        }
        return Action::Bad(1, false);
    }
    let offset: usize = if b < 0x7F {
        0x40
    } else {
        0x62
    };
    if (b >= 0x40 && b <= 0x7E) || (b >= 0xA1 && b <= 0xFE) {
        let pointer: usize = (lead as usize - 0x81) * 157 + (b as usize - offset);
        assert(pointer == pointer_of(lead, b));
        if pointer == 1133 {
            return Action::Two(0x00CA, 0x0304);
        }
        if pointer == 1135 {
            return Action::Two(0x00CA, 0x030C);
        }
        if pointer == 1164 {
            return Action::Two(0x00EA, 0x0304);
        }
        if pointer == 1166 {
            return Action::Two(0x00EA, 0x030C);
        }
        let low_bits = idx.low_bits(pointer);
        if low_bits == 0 {
            return bad_trail_exec(b);
        }
        if idx.is_astral(pointer) {
            return Action::One(low_bits as u32 + 0x20000);
        }
        return Action::One(low_bits as u32);
    }
    bad_trail_exec(b)
}

/// Two sequences that agree on the positions from `lo` to `hi` agree on any
/// range inside them.
proof fn lemma_same_range<T>(a: Seq<T>, b: Seq<T>, lo: int, hi: int, x: int, y: int)
    requires
        0 <= lo <= x <= y <= hi,
        hi <= a.len(),
        hi <= b.len(),
        a.subrange(lo, hi) == b.subrange(lo, hi),
    ensures
        a.subrange(x, y) == b.subrange(x, y),
{
    assert forall|k: int| x <= k < y implies a[k] == b[k] by {
        assert(a[k] == a.subrange(lo, hi)[k - lo]);
        assert(b[k] == b.subrange(lo, hi)[k - lo]);
    }
    assert(a.subrange(x, y) =~= b.subrange(x, y));
}

/// The input length counted with the pending lead byte, if any.
pub open spec fn pending_len(lead: u8, byte_length: int) -> int {
    byte_length + if lead == 0 {
        0int
    } else {
        1int
    }
}

/// The UTF-16 buffer length that suffices for `byte_length` bytes.
pub open spec fn utf16_bound(lead: u8, byte_length: int) -> int {
    pending_len(lead, byte_length) + 1
}

/// The UTF-8 buffer length that suffices for `byte_length` bytes.
pub open spec fn utf8_bound(lead: u8, byte_length: int) -> int {
    let m = pending_len(lead, byte_length);
    m * 2 + m / 2 + 4
}

/// The UTF-8 buffer length that suffices for `byte_length` bytes when each
/// malformed sequence is replaced by U+FFFD.
pub open spec fn utf8_bound_with_replacement(lead: u8, byte_length: int) -> int {
    3 * pending_len(lead, byte_length) + 4
}

/// One step keeps the pending lead valid and writes few units: none for a lead
/// byte, one for ASCII, at most two UTF-16 units or four UTF-8 bytes for a
/// completed pair.
pub(crate) proof fn lemma_step_small(idx: &Big5Index, lead: u8, b: u8, wide: bool)
    requires
        lead_ok(lead),
    ensures
        match step(idx, lead, b) {
            Step::Emit(e, next) => {
                &&& lead_ok(next)
                &&& lead == 0 && next == 0 ==> encoded_len(e, wide) == 1
                &&& lead == 0 && next != 0 ==> encoded_len(e, wide) == 0
                &&& lead != 0 ==> next == 0 && 0 <= encoded_len(e, wide) <= (if wide {
                    2int
                } else {
                    4int
                })
            },
            Step::Malformed(_, unread) => unread ==> lead != 0,
        },
{
    assert(encoded_len(Seq::empty(), wide) == 0) by {
        assert(utf16_of(Seq::<u32>::empty()) =~= Seq::<u16>::empty());
        assert(utf8_of(Seq::<u32>::empty()) =~= Seq::<u8>::empty());
    }
    match step(idx, lead, b) {
        Step::Emit(e, next) => {
            if e.len() == 1 {
                lemma_encode_one(e[0]);
                assert(e =~= seq![e[0]]);
            } else if e.len() == 2 {
                lemma_encode_two(e[0], e[1]);
                assert(e =~= seq![e[0], e[1]]);
            }
            if lead != 0 && is_trail(b) {
                let p = pointer_of(lead, b);
                if combination(p).is_none() {
                    assert(idx.code_point_at(p).is_some());
                    assert(idx.code_point_at(p).unwrap() < 0x30000);
                }
            }
        },
        Step::Malformed(_, _) => {},
    }
}

/// What a decode call reports: it reads forward within the input and leaves
/// a valid pending lead; a malformed sequence clears the lead and either
/// consumes input or drops a lead byte of an earlier call, and leaves the room
/// that was asked for, unless it is a lead byte of an earlier call that ends
/// the input.
pub(crate) proof fn lemma_run_facts(
    idx: &Big5Index,
    lead: u8,
    src: Seq<u8>,
    i: int,
    room: int,
    last: bool,
    wide: bool,
)
    requires
        lead_ok(lead),
        0 <= i <= src.len(),
    ensures
        ({
            let o = run(idx, lead, src, i, room, last, wide);
            &&& i <= o.read <= src.len()
            &&& lead_ok(o.lead)
            &&& o.result is InputEmpty ==> o.read == src.len()
            &&& o.result is Malformed ==> {
                &&& o.lead == 0
                &&& o.read > i || lead != 0
                &&& encoded_len(o.cps, wide) + room_needed(wide) <= room || (o.read == i
                    && i == src.len() && lead != 0 && o.cps.len() == 0)
            }
        }),
    decreases src.len() - i,
{
    if i < src.len() && room >= room_needed(wide) {
        lemma_step_small(idx, lead, src[i], wide);
        match step(idx, lead, src[i]) {
            Step::Emit(e, next) => {
                let sub = run(idx, next, src, i + 1, room - encoded_len(e, wide), last, wide);
                lemma_run_facts(idx, next, src, i + 1, room - encoded_len(e, wide), last, wide);
                lemma_encoded_len_append(e, sub.cps, wide);
                assert(utf16_of(Seq::<u32>::empty()) =~= Seq::<u16>::empty());
                assert(utf8_of(Seq::<u32>::empty()) =~= Seq::<u8>::empty());
            },
            Step::Malformed(_, _) => {
                assert(utf16_of(Seq::<u32>::empty()) =~= Seq::<u16>::empty());
                assert(utf8_of(Seq::<u32>::empty()) =~= Seq::<u8>::empty());
            },
        }
    }
}

/// The output units that U+FFFD takes.
pub open spec fn replacement_len(wide: bool) -> int {
    if wide {
        1
    } else {
        3
    }
}

/// Decode calls from input position `i` that go on after each malformed
/// sequence, writing U+FFFD in its place; the flag says whether any was
/// written. Where the input ends on a pending lead byte and U+FFFD does not
/// fit, the output is full and the lead byte stays pending.
#[verifier::opaque]
pub open spec fn run_with_replacement(
    idx: &Big5Index,
    lead: u8,
    src: Seq<u8>,
    i: int,
    room: int,
    last: bool,
    wide: bool,
) -> (Outcome, bool)
    decreases 2 * (src.len() - i) + if lead == 0 {
        0int
    } else {
        1int
    },
{
    if i >= src.len() && last && lead != 0 && room < replacement_len(wide) {
        (Outcome { result: DecoderResult::OutputFull, read: i, lead, cps: Seq::empty() }, false)
    } else {
        let o = run(idx, lead, src, i, room, last, wide);
        if o.result is Malformed {
            if i <= o.read <= src.len() && (o.read > i || lead != 0) && encoded_len(o.cps, wide)
                + replacement_len(wide) <= room {
                let rest = run_with_replacement(
                    idx,
                    0,
                    src,
                    o.read,
                    room - encoded_len(o.cps, wide) - replacement_len(wide),
                    last,
                    wide,
                );
                (prepend(o.cps.push(0xFFFD), rest.0), true)
            } else {
                (o, true)
            }
        } else {
            (o, false)
        }
    }
}

/// One unfolding of `run_with_replacement`: it is the decode call itself,
/// unless that ends on a malformed sequence, which U+FFFD then follows.
pub(crate) proof fn lemma_replacement_step(
    idx: &Big5Index,
    lead: u8,
    src: Seq<u8>,
    i: int,
    room: int,
    last: bool,
    wide: bool,
)
    requires
        lead_ok(lead),
        0 <= i <= src.len(),
    ensures
        ({
            let x = run_with_replacement(idx, lead, src, i, room, last, wide);
            let o = run(idx, lead, src, i, room, last, wide);
            &&& i >= src.len() && last && lead != 0 && room < replacement_len(wide) ==> x == (
            Outcome {
                result: DecoderResult::OutputFull,
                read: i,
                lead,
                cps: Seq::empty(),
            },
            false,
            )
            &&& !(i >= src.len() && last && lead != 0 && room < replacement_len(wide)) ==> {
                &&& o.result is Malformed ==> {
                    &&& encoded_len(o.cps, wide) + replacement_len(wide) <= room
                    &&& i <= o.read <= src.len()
                    &&& x == (
                        prepend(
                            o.cps.push(0xFFFD),
                            run_with_replacement(
                                idx,
                                0,
                                src,
                                o.read,
                                room - encoded_len(o.cps, wide) - replacement_len(wide),
                                last,
                                wide,
                            ).0,
                        ),
                        true,
                    )
                }
                &&& !(o.result is Malformed) ==> x == (o, false)
            }
        }),
{
    reveal(run_with_replacement);
    lemma_run_facts(idx, lead, src, i, room, last, wide);
    assert(utf16_of(Seq::<u32>::empty()) =~= Seq::<u16>::empty());
    assert(utf8_of(Seq::<u32>::empty()) =~= Seq::<u8>::empty());
}

/// A streaming Big5 decoder. Its one piece of state is the lead byte of a
/// two-byte sequence whose trail byte has not come yet.
pub struct Big5Decoder {
    lead: u8,
}

impl View for Big5Decoder {
    /// The pending lead byte, 0 for none.
    type V = u8;

    closed spec fn view(&self) -> u8 {
        self.lead
    }
}

impl Big5Decoder {
    /// The pending lead byte is none or a Big5 lead byte.
    pub open spec fn wf(&self) -> bool {
        lead_ok(self@)
    }

    /// A decoder at the start of a stream.
    pub fn new() -> (r: Big5Decoder)
        ensures
            r.wf(),
            r@ == 0,
    {
        Big5Decoder { lead: 0 }
    }

    /// Forgets any pending lead byte, to start a new stream.
    pub fn reset(&mut self)
        ensures
            final(self).wf(),
            final(self)@ == 0,
    {
        self.lead = 0u8;
    }

    fn plus_one_if_lead(&self, byte_length: usize) -> (r: usize)
        requires
            pending_len(self@, byte_length as int) <= usize::MAX,
        ensures
            r == pending_len(self@, byte_length as int),
    {
        byte_length + if self.lead == 0 {
            0
        } else {
            1
        }
    }

    /// A UTF-16 buffer length that suffices to decode `byte_length` bytes.
    pub fn max_utf16_buffer_length(&self, byte_length: usize) -> (r: usize)
        requires
            utf16_bound(self@, byte_length as int) <= usize::MAX,
        ensures
            r == utf16_bound(self@, byte_length as int),
    {
        self.plus_one_if_lead(byte_length) + 1
    }

    /// A UTF-8 buffer length that suffices to decode `byte_length` bytes.
    pub fn max_utf8_buffer_length(&self, byte_length: usize) -> (r: usize)
        requires
            utf8_bound(self@, byte_length as int) <= usize::MAX,
        ensures
            r == utf8_bound(self@, byte_length as int),
    {
        let len = self.plus_one_if_lead(byte_length);
        (len * 2) + (len / 2) + 4
    }

    /// A UTF-8 buffer length that suffices to decode `byte_length` bytes with
    /// each malformed sequence replaced by U+FFFD.
    pub fn max_utf8_buffer_length_with_replacement(&self, byte_length: usize) -> (r: usize)
        requires
            utf8_bound_with_replacement(self@, byte_length as int) <= usize::MAX,
        ensures
            r == utf8_bound_with_replacement(self@, byte_length as int),
    {
        3 * self.plus_one_if_lead(byte_length) + 4
    }

    /// Decodes `src` from position `i0` into UTF-16 in `dst` from position
    /// `w0`. Returns why it stopped and the positions in `src` and `dst` that
    /// it reached.
    fn decode_to_utf16_from(
        &mut self,
        index: &Big5Index,
        src: &[u8],
        i0: usize,
        dst: &mut [u16],
        w0: usize,
        last: bool,
    ) -> (r: (DecoderResult, usize, usize))
        requires
            old(self).wf(),
            i0 <= src@.len(),
            w0 <= old(dst)@.len(),
        ensures
            final(self).wf(),
            ({
                let o = run(index, old(self)@, src@, i0 as int, old(dst)@.len() - w0, last, true);
                &&& r.0 == o.result
                &&& r.1 == o.read
                &&& final(self)@ == o.lead
                &&& r.2 == w0 + utf16_of(o.cps).len()
                &&& r.2 <= old(dst)@.len()
                &&& final(dst)@.subrange(w0 as int, r.2 as int) == utf16_of(o.cps)
            }),
            final(dst)@.len() == old(dst)@.len(),
            final(dst)@.subrange(0, w0 as int) == old(dst)@.subrange(0, w0 as int),
            final(dst)@.subrange(r.2 as int, final(dst)@.len() as int) == old(dst)@.subrange(
                r.2 as int,
                old(dst)@.len() as int,
            ),
    {
        let ghost whole = run(index, self@, src@, i0 as int, dst@.len() - w0, last, true);
        let ghost mut done: Seq<u32> = Seq::empty();
        let mut i: usize = i0;
        let mut w: usize = w0;
        assert(dst@.subrange(w0 as int, w0 as int) =~= utf16_of(done));
        assert(whole == prepend(done, whole)) by {
            assert(done + whole.cps =~= whole.cps);
        }
        loop
            invariant
                self.wf(),
                i0 <= i <= src@.len(),
                w0 <= w <= dst@.len(),
                dst@.len() == old(dst)@.len(),
                w - w0 == utf16_of(done).len(),
                dst@.subrange(0, w0 as int) == old(dst)@.subrange(0, w0 as int),
                dst@.subrange(w0 as int, w as int) == utf16_of(done),
                dst@.subrange(w as int, dst@.len() as int) == old(dst)@.subrange(
                    w as int,
                    old(dst)@.len() as int,
                ),
                whole == run(index, old(self)@, src@, i0 as int, old(dst)@.len() - w0, last, true),
                whole == prepend(
                    done,
                    run(index, self@, src@, i as int, dst@.len() - w, last, true),
                ),
            decreases src@.len() - i,
        {
            if i >= src.len() {
                proof {
                    assert(done + Seq::empty() =~= done);
                }
                if last && self.lead != 0 {
                    self.lead = 0;
                    return (DecoderResult::Malformed(1), i, w);
                }
                return (DecoderResult::InputEmpty, i, w);
            }
            if dst.len() - w < 2 {
                proof {
                    assert(done + Seq::empty() =~= done);
                }
                return (DecoderResult::OutputFull, i, w);
            }
            let b = src[i];
            let a = decide(index, self.lead, b);
            let ghost prev = dst@;
            match a {
                Action::Pending(l) => {
                    self.lead = l;
                    proof {
                        assert(utf16_of(Seq::<u32>::empty()) =~= Seq::<u16>::empty());
                        let r = run(index, l, src@, i + 1, dst@.len() - w, last, true);
                        assert(prepend(done, prepend(Seq::empty(), r)).cps =~= prepend(
                            done,
                            r,
                        ).cps);
                    }
                    i = i + 1;
                },
                Action::One(c) => {
                    self.lead = 0;
                    let ghost e = seq![c];
                    proof {
                        lemma_encode_one(c);
                        lemma_utf16_append(done, e);
                    }
                    let w2 = write_utf16(dst, w, c);
                    proof {
                        lemma_same_range(dst@, prev, 0, w as int, 0, w0 as int);
                        lemma_same_range(dst@, prev, 0, w as int, w0 as int, w as int);
                        lemma_same_range(
                            prev,
                            old(dst)@,
                            w as int,
                            dst@.len() as int,
                            w2 as int,
                            dst@.len() as int,
                        );
                        assert(dst@.subrange(w0 as int, w2 as int) =~= dst@.subrange(
                            w0 as int,
                            w as int,
                        )
                            + dst@.subrange(w as int, w2 as int));
                        let r = run(index, 0, src@, i + 1, dst@.len() - w2, last, true);
                        assert(prepend(done, prepend(e, r)).cps =~= prepend(done + e, r).cps);
                        done = done + e;
                    }
                    w = w2;
                    i = i + 1;
                },
                Action::Two(c, d) => {
                    self.lead = 0;
                    let ghost e = seq![c, d];
                    proof {
                        lemma_encode_two(c, d);
                        lemma_utf16_append(done, e);
                    }
                    let w1 = write_utf16(dst, w, c);
                    let ghost mid = dst@;
                    let w2 = write_utf16(dst, w1, d);
                    proof {
                        lemma_same_range(mid, prev, 0, w as int, 0, w0 as int);
                        lemma_same_range(mid, prev, 0, w as int, w0 as int, w as int);
                        lemma_same_range(dst@, mid, 0, w1 as int, 0, w0 as int);
                        lemma_same_range(dst@, mid, 0, w1 as int, w0 as int, w as int);
                        lemma_same_range(dst@, mid, 0, w1 as int, w as int, w1 as int);
                        lemma_same_range(
                            prev,
                            old(dst)@,
                            w as int,
                            dst@.len() as int,
                            w1 as int,
                            dst@.len() as int,
                        );
                        lemma_same_range(
                            mid,
                            old(dst)@,
                            w1 as int,
                            dst@.len() as int,
                            w2 as int,
                            dst@.len() as int,
                        );
                        assert(dst@.subrange(w0 as int, w2 as int) =~= dst@.subrange(
                            w0 as int,
                            w as int,
                        ) + dst@.subrange(w as int, w1 as int) + dst@.subrange(w1 as int, w2 as int));
                        let r = run(index, 0, src@, i + 1, dst@.len() - w2, last, true);
                        assert(prepend(done, prepend(e, r)).cps =~= prepend(done + e, r).cps);
                        done = done + e;
                    }
                    w = w2;
                    i = i + 1;
                },
                Action::Bad(n, unread) => {
                    self.lead = 0;
                    proof {
                        assert(done + Seq::empty() =~= done);
                    }
                    if unread {
                        return (DecoderResult::Malformed(n), i, w);
                    }
                    return (DecoderResult::Malformed(n), i + 1, w);
                },
            }
        }
    }

    /// Decodes `src` into UTF-16 in `dst`. Returns why it stopped, how many
    /// bytes of `src` it read and how many units of `dst` it wrote; `last`
    /// says that no input follows.
    pub fn decode_to_utf16(
        &mut self,
        index: &Big5Index,
        src: &[u8],
        dst: &mut [u16],
        last: bool,
    ) -> (r: (DecoderResult, usize, usize))
        requires
            old(self).wf(),
        ensures
            final(self).wf(),
            ({
                let o = decode_spec(index, old(self)@, src@, old(dst)@.len() as int, last, true);
                &&& r.0 == o.result
                &&& r.1 == o.read
                &&& final(self)@ == o.lead
                &&& r.2 == utf16_of(o.cps).len()
                &&& final(dst)@.subrange(0, r.2 as int) == utf16_of(o.cps)
            }),
            r.2 <= old(dst)@.len(),
            final(dst)@.len() == old(dst)@.len(),
            final(dst)@.subrange(r.2 as int, final(dst)@.len() as int) == old(dst)@.subrange(
                r.2 as int,
                old(dst)@.len() as int,
            ),
    {
        self.decode_to_utf16_from(index, src, 0, dst, 0, last)
    }

    /// Decodes `src` from position `i0` into UTF-8 in `dst` from position
    /// `w0`. Returns why it stopped and the positions in `src` and `dst` that
    /// it reached.
    fn decode_to_utf8_from(
        &mut self,
        index: &Big5Index,
        src: &[u8],
        i0: usize,
        dst: &mut [u8],
        w0: usize,
        last: bool,
    ) -> (r: (DecoderResult, usize, usize))
        requires
            old(self).wf(),
            i0 <= src@.len(),
            w0 <= old(dst)@.len(),
        ensures
            final(self).wf(),
            ({
                let o = run(index, old(self)@, src@, i0 as int, old(dst)@.len() - w0, last, false);
                &&& r.0 == o.result
                &&& r.1 == o.read
                &&& final(self)@ == o.lead
                &&& r.2 == w0 + utf8_of(o.cps).len()
                &&& r.2 <= old(dst)@.len()
                &&& final(dst)@.subrange(w0 as int, r.2 as int) == utf8_of(o.cps)
            }),
            final(dst)@.len() == old(dst)@.len(),
            final(dst)@.subrange(0, w0 as int) == old(dst)@.subrange(0, w0 as int),
            final(dst)@.subrange(r.2 as int, final(dst)@.len() as int) == old(dst)@.subrange(
                r.2 as int,
                old(dst)@.len() as int,
            ),
    {
        let ghost whole = run(index, self@, src@, i0 as int, dst@.len() - w0, last, false);
        let ghost mut done: Seq<u32> = Seq::empty();
        let mut i: usize = i0;
        let mut w: usize = w0;
        assert(dst@.subrange(w0 as int, w0 as int) =~= utf8_of(done));
        assert(whole == prepend(done, whole)) by {
            assert(done + whole.cps =~= whole.cps);
        }
        loop
            invariant
                self.wf(),
                i0 <= i <= src@.len(),
                w0 <= w <= dst@.len(),
                dst@.len() == old(dst)@.len(),
                w - w0 == utf8_of(done).len(),
                dst@.subrange(0, w0 as int) == old(dst)@.subrange(0, w0 as int),
                dst@.subrange(w0 as int, w as int) == utf8_of(done),
                dst@.subrange(w as int, dst@.len() as int) == old(dst)@.subrange(
                    w as int,
                    old(dst)@.len() as int,
                ),
                whole == run(index, old(self)@, src@, i0 as int, old(dst)@.len() - w0, last, false),
                whole == prepend(
                    done,
                    run(index, self@, src@, i as int, dst@.len() - w, last, false),
                ),
            decreases src@.len() - i,
        {
            if i >= src.len() {
                proof {
                    assert(done + Seq::empty() =~= done);
                }
                if last && self.lead != 0 {
                    self.lead = 0;
                    return (DecoderResult::Malformed(1), i, w);
                }
                return (DecoderResult::InputEmpty, i, w);
            }
            if dst.len() - w < 4 {
                proof {
                    assert(done + Seq::empty() =~= done);
                }
                return (DecoderResult::OutputFull, i, w);
            }
            let b = src[i];
            let a = decide(index, self.lead, b);
            let ghost prev = dst@;
            match a {
                Action::Pending(l) => {
                    self.lead = l;
                    proof {
                        assert(utf8_of(Seq::<u32>::empty()) =~= Seq::<u8>::empty());
                        let r = run(index, l, src@, i + 1, dst@.len() - w, last, false);
                        assert(prepend(done, prepend(Seq::empty(), r)).cps =~= prepend(
                            done,
                            r,
                        ).cps);
                    }
                    i = i + 1;
                },
                Action::One(c) => {
                    self.lead = 0;
                    let ghost e = seq![c];
                    proof {
                        lemma_encode_one(c);
                        lemma_utf8_append(done, e);
                    }
                    let w2 = write_utf8(dst, w, c);
                    proof {
                        lemma_same_range(dst@, prev, 0, w as int, 0, w0 as int);
                        lemma_same_range(dst@, prev, 0, w as int, w0 as int, w as int);
                        lemma_same_range(
                            prev,
                            old(dst)@,
                            w as int,
                            dst@.len() as int,
                            w2 as int,
                            dst@.len() as int,
                        );
                        assert(dst@.subrange(w0 as int, w2 as int) =~= dst@.subrange(
                            w0 as int,
                            w as int,
                        )
                            + dst@.subrange(w as int, w2 as int));
                        let r = run(index, 0, src@, i + 1, dst@.len() - w2, last, false);
                        assert(prepend(done, prepend(e, r)).cps =~= prepend(done + e, r).cps);
                        done = done + e;
                    }
                    w = w2;
                    i = i + 1;
                },
                Action::Two(c, d) => {
                    self.lead = 0;
                    let ghost e = seq![c, d];
                    proof {
                        lemma_encode_two(c, d);
                        lemma_utf8_append(done, e);
                    }
                    let w1 = write_utf8(dst, w, c);
                    let ghost mid = dst@;
                    let w2 = write_utf8(dst, w1, d);
                    proof {
                        lemma_same_range(mid, prev, 0, w as int, 0, w0 as int);
                        lemma_same_range(mid, prev, 0, w as int, w0 as int, w as int);
                        lemma_same_range(dst@, mid, 0, w1 as int, 0, w0 as int);
                        lemma_same_range(dst@, mid, 0, w1 as int, w0 as int, w as int);
                        lemma_same_range(dst@, mid, 0, w1 as int, w as int, w1 as int);
                        lemma_same_range(
                            prev,
                            old(dst)@,
                            w as int,
                            dst@.len() as int,
                            w1 as int,
                            dst@.len() as int,
                        );
                        lemma_same_range(
                            mid,
                            old(dst)@,
                            w1 as int,
                            dst@.len() as int,
                            w2 as int,
                            dst@.len() as int,
                        );
                        assert(dst@.subrange(w0 as int, w2 as int) =~= dst@.subrange(
                            w0 as int,
                            w as int,
                        ) + dst@.subrange(w as int, w1 as int) + dst@.subrange(w1 as int, w2 as int));
                        let r = run(index, 0, src@, i + 1, dst@.len() - w2, last, false);
                        assert(prepend(done, prepend(e, r)).cps =~= prepend(done + e, r).cps);
                        done = done + e;
                    }
                    w = w2;
                    i = i + 1;
                },
                Action::Bad(n, unread) => {
                    self.lead = 0;
                    proof {
                        assert(done + Seq::empty() =~= done);
                    }
                    if unread {
                        return (DecoderResult::Malformed(n), i, w);
                    }
                    return (DecoderResult::Malformed(n), i + 1, w);
                },
            }
        }
    }

    /// Decodes `src` into UTF-8 in `dst`. Returns why it stopped, how many
    /// bytes of `src` it read and how many units of `dst` it wrote; `last`
    /// says that no input follows.
    pub fn decode_to_utf8(
        &mut self,
        index: &Big5Index,
        src: &[u8],
        dst: &mut [u8],
        last: bool,
    ) -> (r: (DecoderResult, usize, usize))
        requires
            old(self).wf(),
        ensures
            final(self).wf(),
            ({
                let o = decode_spec(index, old(self)@, src@, old(dst)@.len() as int, last, false);
                &&& r.0 == o.result
                &&& r.1 == o.read
                &&& final(self)@ == o.lead
                &&& r.2 == utf8_of(o.cps).len()
                &&& final(dst)@.subrange(0, r.2 as int) == utf8_of(o.cps)
            }),
            r.2 <= old(dst)@.len(),
            final(dst)@.len() == old(dst)@.len(),
            final(dst)@.subrange(r.2 as int, final(dst)@.len() as int) == old(dst)@.subrange(
                r.2 as int,
                old(dst)@.len() as int,
            ),
    {
        self.decode_to_utf8_from(index, src, 0, dst, 0, last)
    }

    /// Decodes `src` into UTF-16 in `dst`, writing U+FFFD for each malformed
    /// sequence and going on after it. Returns why it stopped, how many bytes
    /// of `src` it read, how many units of `dst` it wrote, and whether it
    /// wrote any U+FFFD.
    pub fn decode_to_utf16_with_replacement(
        &mut self,
        index: &Big5Index,
        src: &[u8],
        dst: &mut [u16],
        last: bool,
    ) -> (r: (DecoderResult, usize, usize, bool))
        requires
            old(self).wf(),
        ensures
            final(self).wf(),
            ({
                let (o, replaced) = run_with_replacement(
                    index,
                    old(self)@,
                    src@,
                    0,
                    old(dst)@.len() as int,
                    last,
                    true,
                );
                &&& r.0 == o.result
                &&& r.1 == o.read
                &&& final(self)@ == o.lead
                &&& r.2 == utf16_of(o.cps).len()
                &&& r.3 == replaced
                &&& final(dst)@.subrange(0, r.2 as int) == utf16_of(o.cps)
            }),
            r.2 <= old(dst)@.len(),
            final(dst)@.len() == old(dst)@.len(),
            final(dst)@.subrange(r.2 as int, final(dst)@.len() as int) == old(dst)@.subrange(
                r.2 as int,
                old(dst)@.len() as int,
            ),
    {
        let ghost whole = run_with_replacement(
            index,
            self@,
            src@,
            0,
            dst@.len() as int,
            last,
            true,
        );
        let ghost mut done: Seq<u32> = Seq::empty();
        let mut i: usize = 0;
        let mut w: usize = 0;
        let mut had_errors = false;
        assert(dst@.subrange(0, 0) =~= utf16_of(done));
        assert(dst@.subrange(0, dst@.len() as int) =~= old(dst)@.subrange(0, dst@.len() as int));
        assert(whole.0 == prepend(done, whole.0)) by {
            assert(done + whole.0.cps =~= whole.0.cps);
        }
        loop
            invariant
                self.wf(),
                i <= src@.len(),
                w <= dst@.len(),
                dst@.len() == old(dst)@.len(),
                w == utf16_of(done).len(),
                dst@.subrange(0, w as int) == utf16_of(done),
                dst@.subrange(w as int, dst@.len() as int) == old(dst)@.subrange(
                    w as int,
                    old(dst)@.len() as int,
                ),
                whole == run_with_replacement(
                    index,
                    old(self)@,
                    src@,
                    0,
                    old(dst)@.len() as int,
                    last,
                    true,
                ),
                ({
                    let rest = run_with_replacement(
                        index,
                        self@,
                        src@,
                        i as int,
                        dst@.len() - w,
                        last,
                        true,
                    );
                    whole == (prepend(done, rest.0), had_errors || rest.1)
                }),
            decreases 2 * (src@.len() - i) + if self@ == 0 {
                0int
            } else {
                1int
            },
        {
            if i >= src.len() && last && self.lead != 0 && dst.len() - w < 1 {
                proof {
                    lemma_replacement_step(
                        index,
                        self@,
                        src@,
                        i as int,
                        dst@.len() - w,
                        last,
                        true,
                    );
                    assert(done + Seq::empty() =~= done);
                }
                return (DecoderResult::OutputFull, i, w, had_errors);
            }
            let ghost lead0 = self@;
            let ghost prev = dst@;
            let ghost done0 = done;
            let (result, read, written) = self.decode_to_utf16_from(index, src, i, dst, w, last);
            let ghost o = run(index, lead0, src@, i as int, prev.len() - w, last, true);
            proof {
                lemma_run_facts(index, lead0, src@, i as int, prev.len() - w, last, true);
                lemma_replacement_step(index, lead0, src@, i as int, prev.len() - w, last, true);
                lemma_utf16_append(done0, o.cps);
                lemma_same_range(dst@, prev, 0, w as int, 0, w as int);
                lemma_same_range(
                    prev,
                    old(dst)@,
                    w as int,
                    prev.len() as int,
                    written as int,
                    prev.len() as int,
                );
                assert(dst@.subrange(0, written as int) =~= dst@.subrange(0, w as int)
                    + dst@.subrange(w as int, written as int));
            }
            match result {
                DecoderResult::Malformed(_) => {
                    let ghost mid = dst@;
                    proof {
                        assert(utf16_of(Seq::<u32>::empty()) =~= Seq::<u16>::empty());
                        lemma_encode_one(0xFFFD);
                    }
                    let w2 = write_utf16(dst, written, 0xFFFD);
                    proof {
                        let e = o.cps.push(0xFFFD);
                        assert(e =~= o.cps + seq![0xFFFDu32]);
                        lemma_utf16_append(o.cps, seq![0xFFFDu32]);
                        lemma_utf16_append(done0, e);
                        lemma_same_range(dst@, mid, 0, written as int, 0, written as int);
                        lemma_same_range(
                            mid,
                            old(dst)@,
                            written as int,
                            dst@.len() as int,
                            w2 as int,
                            dst@.len() as int,
                        );
                        assert(dst@.subrange(0, w2 as int) =~= dst@.subrange(0, written as int)
                            + dst@.subrange(written as int, w2 as int));
                        assert((done0 + o.cps) + seq![0xFFFDu32] =~= done0 + e);
                        let rest = run_with_replacement(
                            index,
                            0,
                            src@,
                            read as int,
                            dst@.len() - w2,
                            last,
                            true,
                        );
                        assert(prepend(done0, prepend(e, rest.0)).cps =~= prepend(done0
                            + e, rest.0).cps);
                        done = done0 + e;
                    }
                    i = read;
                    w = w2;
                    had_errors = true;
                },
                _ => {
                    proof {
                        assert(prepend(done0, o).cps == done0 + o.cps);
                    }
                    return (result, read, written, had_errors);
                },
            }
        }
    }

    /// Decodes `src` into UTF-8 in `dst`, writing U+FFFD for each malformed
    /// sequence and going on after it. Returns why it stopped, how many bytes
    /// of `src` it read, how many units of `dst` it wrote, and whether it
    /// wrote any U+FFFD.
    pub fn decode_to_utf8_with_replacement(
        &mut self,
        index: &Big5Index,
        src: &[u8],
        dst: &mut [u8],
        last: bool,
    ) -> (r: (DecoderResult, usize, usize, bool))
        requires
            old(self).wf(),
        ensures
            final(self).wf(),
            ({
                let (o, replaced) = run_with_replacement(
                    index,
                    old(self)@,
                    src@,
                    0,
                    old(dst)@.len() as int,
                    last,
                    false,
                );
                &&& r.0 == o.result
                &&& r.1 == o.read
                &&& final(self)@ == o.lead
                &&& r.2 == utf8_of(o.cps).len()
                &&& r.3 == replaced
                &&& final(dst)@.subrange(0, r.2 as int) == utf8_of(o.cps)
            }),
            r.2 <= old(dst)@.len(),
            final(dst)@.len() == old(dst)@.len(),
            final(dst)@.subrange(r.2 as int, final(dst)@.len() as int) == old(dst)@.subrange(
                r.2 as int,
                old(dst)@.len() as int,
            ),
    {
        let ghost whole = run_with_replacement(
            index,
            self@,
            src@,
            0,
            dst@.len() as int,
            last,
            false,
        );
        let ghost mut done: Seq<u32> = Seq::empty();
        let mut i: usize = 0;
        let mut w: usize = 0;
        let mut had_errors = false;
        assert(dst@.subrange(0, 0) =~= utf8_of(done));
        assert(dst@.subrange(0, dst@.len() as int) =~= old(dst)@.subrange(0, dst@.len() as int));
        assert(whole.0 == prepend(done, whole.0)) by {
            assert(done + whole.0.cps =~= whole.0.cps);
        }
        loop
            invariant
                self.wf(),
                i <= src@.len(),
                w <= dst@.len(),
                dst@.len() == old(dst)@.len(),
                w == utf8_of(done).len(),
                dst@.subrange(0, w as int) == utf8_of(done),
                dst@.subrange(w as int, dst@.len() as int) == old(dst)@.subrange(
                    w as int,
                    old(dst)@.len() as int,
                ),
                whole == run_with_replacement(
                    index,
                    old(self)@,
                    src@,
                    0,
                    old(dst)@.len() as int,
                    last,
                    false,
                ),
                ({
                    let rest = run_with_replacement(
                        index,
                        self@,
                        src@,
                        i as int,
                        dst@.len() - w,
                        last,
                        false,
                    );
                    whole == (prepend(done, rest.0), had_errors || rest.1)
                }),
            decreases 2 * (src@.len() - i) + if self@ == 0 {
                0int
            } else {
                1int
            },
        {
            if i >= src.len() && last && self.lead != 0 && dst.len() - w < 3 {
                proof {
                    lemma_replacement_step(
                        index,
                        self@,
                        src@,
                        i as int,
                        dst@.len() - w,
                        last,
                        false,
                    );
                    assert(done + Seq::empty() =~= done);
                }
                return (DecoderResult::OutputFull, i, w, had_errors);
            }
            let ghost lead0 = self@;
            let ghost prev = dst@;
            let ghost done0 = done;
            let (result, read, written) = self.decode_to_utf8_from(index, src, i, dst, w, last);
            let ghost o = run(index, lead0, src@, i as int, prev.len() - w, last, false);
            proof {
                lemma_run_facts(index, lead0, src@, i as int, prev.len() - w, last, false);
                lemma_replacement_step(index, lead0, src@, i as int, prev.len() - w, last, false);
                lemma_utf8_append(done0, o.cps);
                lemma_same_range(dst@, prev, 0, w as int, 0, w as int);
                lemma_same_range(
                    prev,
                    old(dst)@,
                    w as int,
                    prev.len() as int,
                    written as int,
                    prev.len() as int,
                );
                assert(dst@.subrange(0, written as int) =~= dst@.subrange(0, w as int)
                    + dst@.subrange(w as int, written as int));
            }
            match result {
                DecoderResult::Malformed(_) => {
                    let ghost mid = dst@;
                    proof {
                        assert(utf8_of(Seq::<u32>::empty()) =~= Seq::<u8>::empty());
                        lemma_encode_one(0xFFFD);
                    }
                    let w2 = write_utf8(dst, written, 0xFFFD);
                    proof {
                        let e = o.cps.push(0xFFFD);
                        assert(e =~= o.cps + seq![0xFFFDu32]);
                        lemma_utf8_append(o.cps, seq![0xFFFDu32]);
                        lemma_utf8_append(done0, e);
                        lemma_same_range(dst@, mid, 0, written as int, 0, written as int);
                        lemma_same_range(
                            mid,
                            old(dst)@,
                            written as int,
                            dst@.len() as int,
                            w2 as int,
                            dst@.len() as int,
                        );
                        assert(dst@.subrange(0, w2 as int) =~= dst@.subrange(0, written as int)
                            + dst@.subrange(written as int, w2 as int));
                        assert((done0 + o.cps) + seq![0xFFFDu32] =~= done0 + e);
                        let rest = run_with_replacement(
                            index,
                            0,
                            src@,
                            read as int,
                            dst@.len() - w2,
                            last,
                            false,
                        );
                        assert(prepend(done0, prepend(e, rest.0)).cps =~= prepend(done0
                            + e, rest.0).cps);
                        done = done0 + e;
                    }
                    i = read;
                    w = w2;
                    had_errors = true;
                },
                _ => {
                    proof {
                        assert(prepend(done0, o).cps == done0 + o.cps);
                    }
                    return (result, read, written, had_errors);
                },
            }
        }
    }
}

} // verus!
