use vstd::prelude::*;

verus! {

/// Number of pointers of the Big5 index: 126 lead bytes times 157 trail bytes.
pub const POINTER_COUNT: usize = 19782;

/// The Big5 index: for each pointer, the low 16 bits of the code point it maps
/// to (0 for no mapping) and whether the code point lies in plane 2
/// (U+20000 plus the low bits) rather than in the Basic Multilingual Plane.
pub struct Big5Index {
    low: Vec<u16>,
    astral: Vec<bool>,
}

impl Big5Index {
    /// The index is well formed: one low-bits entry and one plane flag per
    /// pointer.
    pub closed spec fn wf(&self) -> bool {
        self.low@.len() == POINTER_COUNT && self.astral@.len() == POINTER_COUNT
    }

    /// The low 16 bits that pointer `p` maps to; 0 means no mapping.
    pub closed spec fn low_at(&self, p: int) -> u16 {
        if 0 <= p < self.low@.len() {
            self.low@[p]
        } else {
            0
        }
    }

    /// Whether pointer `p` maps into plane 2.
    pub closed spec fn astral_at(&self, p: int) -> bool {
        if 0 <= p < self.astral@.len() {
            self.astral@[p]
        } else {
            false
        }
    }

    /// The code point that pointer `p` maps to, if any.
    pub open spec fn code_point_at(&self, p: int) -> Option<u32> {
        if self.low_at(p) == 0 {
            None
        } else if self.astral_at(p) {
            Some((0x20000 + self.low_at(p)) as u32)
        } else {
            Some(self.low_at(p) as u32)
        }
    }

    /// An index in which no pointer has a mapping.
    pub fn new() -> (r: Big5Index)
        ensures
            r.wf(),
            forall|p: int| #[trigger] r.code_point_at(p) == None::<u32>,
    {
        let mut low: Vec<u16> = Vec::new();
        let mut astral: Vec<bool> = Vec::new();
        let mut i: usize = 0;
        while i < POINTER_COUNT
            invariant
                i <= POINTER_COUNT,
                low@.len() == i,
                astral@.len() == i,
                forall|j: int| 0 <= j < i ==> low@[j] == 0,
            decreases POINTER_COUNT - i,
        {
            low.push(0);
            astral.push(false);
            i = i + 1;
        }
        let r = Big5Index { low, astral };
        assert forall|p: int| #[trigger] r.code_point_at(p) == None::<u32> by {
            assert(r.low_at(p) == 0);
        }
        r
    }

    /// Maps `pointer` to `code_point`. A code point in the Basic Multilingual
    /// Plane other than U+0000, or one in plane 2 other than U+20000, is
    /// accepted (low bits of 0 stand for no mapping); anything else,
    /// and a pointer outside the index, is refused with `false` and the index
    /// left as it was.
    pub fn set(&mut self, pointer: usize, code_point: u32) -> (ok: bool)
        requires
            old(self).wf(),
        ensures
            final(self).wf(),
            ok == (pointer < POINTER_COUNT && ((1 <= code_point < 0x10000) || (0x20000
                < code_point < 0x30000))),
            ok ==> final(self).code_point_at(pointer as int) == Some(code_point),
            forall|p: int|
                p != pointer || !ok ==> #[trigger] final(self).code_point_at(p)
                    == old(self).code_point_at(p),
    {
        if pointer >= POINTER_COUNT {
            return false;
        }
        if 1 <= code_point && code_point < 0x10000 {
            self.low.set(pointer, code_point as u16);
            self.astral.set(pointer, false);
            assert(self.low_at(pointer as int) == code_point as u16);
            true
        } else if 0x20000 < code_point && code_point < 0x30000 {
            self.low.set(pointer, (code_point - 0x20000) as u16);
            self.astral.set(pointer, true);
            assert(self.low_at(pointer as int) == (code_point - 0x20000) as u16);
            assert(((0x20000 + self.low_at(pointer as int)) as u32) == code_point);
            true
        } else {
            false
        }
    }

    /// The low bits that `pointer` maps to; 0 for no mapping.
    pub fn low_bits(&self, pointer: usize) -> (r: u16)
        ensures
            r == self.low_at(pointer as int),
    {
        if pointer < self.low.len() {
            self.low[pointer]
        } else {
            0
        }
    }

    /// Whether `pointer` maps into plane 2.
    pub fn is_astral(&self, pointer: usize) -> (r: bool)
        ensures
            r == self.astral_at(pointer as int),
    {
        if pointer < self.astral.len() {
            self.astral[pointer]
        } else {
            false
        }
    }
}

} // verus!
