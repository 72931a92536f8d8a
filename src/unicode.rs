use vstd::prelude::*;

verus! {

/// The UTF-16 code units of one code point: one unit below U+10000, a
/// surrogate pair above.
pub open spec fn utf16_of_cp(c: u32) -> Seq<u16> {
    if c < 0x10000 {
        seq![c as u16]
    } else {
        seq![
            (0xD800 + (c - 0x10000) / 0x400) as u16,
            (0xDC00 + (c - 0x10000) % 0x400) as u16,
        ]
    }
}

/// The UTF-8 bytes of one code point.
pub open spec fn utf8_of_cp(c: u32) -> Seq<u8> {
    if c < 0x80 {
        seq![c as u8]
    } else if c < 0x800 {
        seq![(0xC0 + c / 64) as u8, (0x80 + c % 64) as u8]
    } else if c < 0x10000 {
        seq![(0xE0 + c / 4096) as u8, (0x80 + (c / 64) % 64) as u8, (0x80 + c % 64) as u8]
    } else {
        seq![
            (0xF0 + c / 0x40000) as u8,
            (0x80 + (c / 4096) % 64) as u8,
            (0x80 + (c / 64) % 64) as u8,
            (0x80 + c % 64) as u8,
        ]
    }
}

/// The UTF-16 code units of a sequence of code points.
pub open spec fn utf16_of(cps: Seq<u32>) -> Seq<u16>
    decreases cps.len(),
{
    if cps.len() == 0 {
        Seq::empty()
    } else {
        utf16_of(cps.drop_last()) + utf16_of_cp(cps.last())
    }
}

/// The UTF-8 bytes of a sequence of code points.
pub open spec fn utf8_of(cps: Seq<u32>) -> Seq<u8>
    decreases cps.len(),
{
    if cps.len() == 0 {
        Seq::empty()
    } else {
        utf8_of(cps.drop_last()) + utf8_of_cp(cps.last())
    }
}

/// How many output units a sequence of code points takes: UTF-16 code units
/// when `wide`, else UTF-8 bytes.
pub open spec fn encoded_len(cps: Seq<u32>, wide: bool) -> int {
    if wide {
        utf16_of(cps).len() as int
    } else {
        utf8_of(cps).len() as int
    }
}

/// The free room a writer asks for before it takes the next input byte: the
/// most that one code point can take.
pub open spec fn room_needed(wide: bool) -> int {
    if wide {
        2
    } else {
        4
    }
}

pub proof fn lemma_utf16_append(a: Seq<u32>, b: Seq<u32>)
    ensures
        utf16_of(a + b) == utf16_of(a) + utf16_of(b),
    decreases b.len(),
{
    if b.len() == 0 {
        assert(a + b =~= a);
        assert(utf16_of(a) + utf16_of(b) =~= utf16_of(a));
    } else {
        assert((a + b).drop_last() =~= a + b.drop_last());
        lemma_utf16_append(a, b.drop_last());
        assert(utf16_of(a + b) =~= utf16_of(a) + utf16_of(b));
    }
}

pub proof fn lemma_utf8_append(a: Seq<u32>, b: Seq<u32>)
    ensures
        utf8_of(a + b) == utf8_of(a) + utf8_of(b),
    decreases b.len(),
{
    if b.len() == 0 {
        assert(a + b =~= a);
        assert(utf8_of(a) + utf8_of(b) =~= utf8_of(a));
    } else {
        assert((a + b).drop_last() =~= a + b.drop_last());
        lemma_utf8_append(a, b.drop_last());
        assert(utf8_of(a + b) =~= utf8_of(a) + utf8_of(b));
    }
}

pub proof fn lemma_encoded_len_append(a: Seq<u32>, b: Seq<u32>, wide: bool)
    ensures
        encoded_len(a + b, wide) == encoded_len(a, wide) + encoded_len(b, wide),
{
    lemma_utf16_append(a, b);
    lemma_utf8_append(a, b);
}

/// The encoded form of a single code point.
pub proof fn lemma_encode_one(c: u32)
    ensures
        utf16_of(seq![c]) == utf16_of_cp(c),
        utf8_of(seq![c]) == utf8_of_cp(c),
{
    let s = seq![c];
    assert(s.drop_last() =~= Seq::<u32>::empty());
    assert(utf16_of(s) == utf16_of(s.drop_last()) + utf16_of_cp(c));
    assert(utf8_of(s) == utf8_of(s.drop_last()) + utf8_of_cp(c));
    assert(utf16_of(s) =~= utf16_of_cp(c));
    assert(utf8_of(s) =~= utf8_of_cp(c));
}

/// The encoded form of two code points.
pub proof fn lemma_encode_two(c: u32, d: u32)
    ensures
        utf16_of(seq![c, d]) == utf16_of_cp(c) + utf16_of_cp(d),
        utf8_of(seq![c, d]) == utf8_of_cp(c) + utf8_of_cp(d),
{
    let s = seq![c, d];
    assert(s.drop_last() =~= seq![c]);
    lemma_encode_one(c);
    assert(utf16_of(s) == utf16_of(s.drop_last()) + utf16_of_cp(d));
    assert(utf8_of(s) == utf8_of(s.drop_last()) + utf8_of_cp(d));
}

/// Writes the UTF-16 form of `c` into `dst` at `pos` and returns the position
/// after it.
pub fn write_utf16(dst: &mut [u16], pos: usize, c: u32) -> (next: usize)
    requires
        c < 0x110000,
        pos + utf16_of_cp(c).len() <= old(dst)@.len(),
    ensures
        next == pos + utf16_of_cp(c).len(),
        final(dst)@.len() == old(dst)@.len(),
        final(dst)@.subrange(pos as int, next as int) == utf16_of_cp(c),
        final(dst)@.subrange(0, pos as int) == old(dst)@.subrange(0, pos as int),
        final(dst)@.subrange(next as int, final(dst)@.len() as int) == old(dst)@.subrange(
            next as int,
            old(dst)@.len() as int,
        ),
{
    if c < 0x10000 {
        dst[pos] = c as u16;
        assert(dst@.subrange(pos as int, pos + 1) =~= utf16_of_cp(c));
        assert(dst@.subrange(0, pos as int) =~= old(dst)@.subrange(0, pos as int));
        assert(dst@.subrange(pos + 1, dst@.len() as int) =~= old(dst)@.subrange(pos
            + 1, old(dst)@.len() as int));
        pos + 1
    } else {
        let v = c - 0x10000;
        dst[pos] = (0xD800 + v / 0x400) as u16;
        dst[pos + 1] = (0xDC00 + v % 0x400) as u16;
        assert(dst@.subrange(pos as int, pos + 2) =~= utf16_of_cp(c));
        assert(dst@.subrange(0, pos as int) =~= old(dst)@.subrange(0, pos as int));
        assert(dst@.subrange(pos + 2, dst@.len() as int) =~= old(dst)@.subrange(pos
            + 2, old(dst)@.len() as int));
        pos + 2
    }
}

/// Writes the UTF-8 form of `c` into `dst` at `pos` and returns the position
/// after it.
pub fn write_utf8(dst: &mut [u8], pos: usize, c: u32) -> (next: usize)
    requires
        c < 0x110000,
        pos + utf8_of_cp(c).len() <= old(dst)@.len(),
    ensures
        next == pos + utf8_of_cp(c).len(),
        final(dst)@.len() == old(dst)@.len(),
        final(dst)@.subrange(pos as int, next as int) == utf8_of_cp(c),
        final(dst)@.subrange(0, pos as int) == old(dst)@.subrange(0, pos as int),
        final(dst)@.subrange(next as int, final(dst)@.len() as int) == old(dst)@.subrange(
            next as int,
            old(dst)@.len() as int,
        ),
{
    let n: usize;
    if c < 0x80 {
        dst[pos] = c as u8;
        n = 1;
    } else if c < 0x800 {
        dst[pos] = (0xC0 + c / 64) as u8;
        dst[pos + 1] = (0x80 + c % 64) as u8;
        n = 2;
    } else if c < 0x10000 {
        dst[pos] = (0xE0 + c / 4096) as u8;
        dst[pos + 1] = (0x80 + (c / 64) % 64) as u8;
        dst[pos + 2] = (0x80 + c % 64) as u8;
        n = 3;
    } else {
        dst[pos] = (0xF0 + c / 0x40000) as u8;
        dst[pos + 1] = (0x80 + (c / 4096) % 64) as u8;
        dst[pos + 2] = (0x80 + (c / 64) % 64) as u8;
        dst[pos + 3] = (0x80 + c % 64) as u8;
        n = 4;
    }
    assert(dst@.subrange(pos as int, pos + n) =~= utf8_of_cp(c));
    assert(dst@.subrange(0, pos as int) =~= old(dst)@.subrange(0, pos as int));
    assert(dst@.subrange(pos + n, dst@.len() as int) =~= old(dst)@.subrange(
        pos + n,
        old(dst)@.len() as int,
    ));
    pos + n
}

} // verus!
