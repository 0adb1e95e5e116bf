use vstd::prelude::*;

use crate::addressing::{
    get_bit_shifts, in_target, index_of_shift, lemma_shift_of_properties, shift_of,
    valid_bit_depth,
};
use crate::bitmath::{bit_at, lemma_set_bit, set_bit};
use crate::errors::StegoError;

verus! {

// ---------------------------------------------------------------------------
// The vertex manipulator: a one-shot, single-direction state machine that
// walks the unique-vertex sequence and, per vertex, the addressed target
// positions — emitting bits in read mode, consuming bits and reporting
// (original, transformed) key pairs in write mode.
// ---------------------------------------------------------------------------

/// Direction of a manipulator: a reader emits bits, a writer consumes them.
#[allow(non_camel_case_types)]
#[derive(PartialEq, Eq, Structural, Clone, Copy, Debug)]
pub enum ManipulatorMode {
    READ,
    WRITE,
}

/// `orig` with target positions `0 .. vals.len()` (for depth `bits`)
/// overwritten by `vals`, in order, and every other bit kept.
pub open spec fn write_prefix(orig: u128, bits: int, vals: Seq<bool>) -> u128
    decreases vals.len(),
{
    if vals.len() == 0 {
        orig
    } else {
        set_bit(
            write_prefix(orig, bits, vals.drop_last()),
            shift_of(bits, vals.len() - 1),
            vals.last(),
        )
    }
}

/// Bit `p` of a partially overwritten key: the written value at overwritten
/// target positions, the original bit everywhere else.
pub proof fn lemma_write_prefix_bit(orig: u128, bits: int, vals: Seq<bool>, p: int)
    requires
        valid_bit_depth(bits),
        vals.len() <= 3 * bits,
        0 <= p < 128,
    ensures
        bit_at(write_prefix(orig, bits, vals), p) == if in_target(bits, p) && index_of_shift(
            bits,
            p,
        ) < vals.len() {
            vals[index_of_shift(bits, p)]
        } else {
            bit_at(orig, p)
        },
    decreases vals.len(),
{
    lemma_shift_of_properties(bits);
    if vals.len() > 0 {
        lemma_write_prefix_bit(orig, bits, vals.drop_last(), p);
        let j = vals.len() - 1;
        lemma_set_bit(write_prefix(orig, bits, vals.drop_last()), shift_of(bits, j), p, vals.last());
    }
}

/// Walks a unique-vertex sequence position by position.  `vertex_index`
/// counts the vertices already entered (saturating once the sequence is
/// exhausted), `shift_cursor` walks the target-position list cyclically.
pub struct VertexManipulator {
    mode: ManipulatorMode,
    bits_encoding: u8,
    vertices: Vec<u128>,
    vertex_index: usize,
    shifts: Vec<u8>,
    shift_cursor: usize,
    last_shift: u8,
    current_vertex: u128,
    current_vertex_src: u128,
    written: Ghost<Seq<bool>>,
}

impl VertexManipulator {
    /// The manipulator's direction.
    pub closed spec fn mode_spec(self) -> ManipulatorMode {
        self.mode
    }

    /// The bit depth the manipulator addresses with.
    pub closed spec fn bits(self) -> int {
        self.bits_encoding as int
    }

    /// The unique-vertex sequence being walked.
    pub closed spec fn verts(self) -> Seq<u128> {
        self.vertices@
    }

    /// Index of the current vertex; equals `verts().len()` once exhausted.
    pub closed spec fn vidx(self) -> int {
        self.vertex_index as int
    }

    /// Index into the target-position list of the next bit to touch.
    pub closed spec fn cursor(self) -> int {
        self.shift_cursor as int
    }

    /// The working copy of the current vertex.
    pub closed spec fn cur(self) -> u128 {
        self.current_vertex
    }

    /// The untouched value of the current vertex (0 past the end).
    pub closed spec fn cur_src(self) -> u128 {
        self.current_vertex_src
    }

    /// The bits already written into the current vertex, in target order.
    pub closed spec fn written(self) -> Seq<bool> {
        self.written@
    }

    /// The mode-independent part of the invariant: the depth, the vertex
    /// sequence and the precomputed target-position table are coherent.
    pub closed spec fn base_wf(self) -> bool {
        &&& valid_bit_depth(self.bits())
        &&& self.verts().len() > 0
        &&& self.shifts@.len() == 3 * self.bits()
        &&& forall|j: int|
            0 <= j < 3 * self.bits() ==> #[trigger] self.shifts@[j] as int == shift_of(
                self.bits(),
                j,
            )
        &&& self.last_shift == 32
        &&& 0 <= self.vidx() <= self.verts().len()
    }

    /// Structural invariant of a manipulator.
    pub closed spec fn wf(self) -> bool {
        &&& self.base_wf()
        &&& 0 <= self.cursor() < 3 * self.bits()
        &&& self.cur_src() == if self.vidx() < self.verts().len() {
            self.verts()[self.vidx()]
        } else {
            0u128
        }
        &&& self.mode == ManipulatorMode::READ ==> {
            &&& self.cur() == self.cur_src()
            &&& self.written().len() == 0
        }
        &&& self.mode == ManipulatorMode::WRITE ==> {
            &&& self.written().len() == self.cursor()
            &&& self.cur() == write_prefix(self.cur_src(), self.bits(), self.written())
        }
    }

    /// Builds a manipulator positioned on the first vertex with an empty
    /// cursor; fails only on an out-of-range bit depth.
    pub fn new(mode: ManipulatorMode, vertices: Vec<u128>, bits: u8) -> (r: Result<
        VertexManipulator,
        StegoError,
    >)
        requires
            vertices@.len() > 0,
        ensures
            r is Ok <==> valid_bit_depth(bits as int),
            r is Err ==> (r matches Err(e) && e == StegoError::InvalidBitDepth),
            r matches Ok(m) ==> {
                &&& m.wf()
                &&& m.mode_spec() == mode
                &&& m.bits() == bits as int
                &&& m.verts() == vertices@
                &&& m.vidx() == 0
                &&& m.cursor() == 0
                &&& m.written().len() == 0
            },
    {
        let sb = get_bit_shifts(bits)?;
        let last_shift_bit = sb[sb.len() - 1];
        let nv = vertices[0];
        proof {
            lemma_shift_of_properties(bits as int);
            assert(shift_of(bits as int, 3 * (bits as int) - 1) == 32);
        }
        Ok(
            VertexManipulator {
                mode,
                bits_encoding: bits,
                vertices,
                vertex_index: 0,
                shifts: sb,
                shift_cursor: 0,
                last_shift: last_shift_bit,
                current_vertex: nv,
                current_vertex_src: nv,
                written: Ghost(Seq::empty()),
            },
        )
    }

    /// Leaves the cursor on the current position's successor: the next
    /// target position, entering the next vertex (or the all-zero vertex
    /// past the end) when the list wraps.
    fn advance_vertex(&mut self)
        requires
            old(self).base_wf(),
        ensures
            final (self).wf(),
            final (self).mode_spec() == old(self).mode_spec(),
            final (self).bits() == old(self).bits(),
            final (self).verts() == old(self).verts(),
            final (self).cursor() == 0,
            final (self).written().len() == 0,
            final (self).vidx() == if old(self).vidx() < old(self).verts().len() {
                old(self).vidx() + 1
            } else {
                old(self).vidx()
            },
            final (self).cur() == final (self).cur_src(),
    {
        self.shift_cursor = 0;
        self.written = Ghost(Seq::empty());
        if self.vertex_index < self.vertices.len() - 1 {
            self.vertex_index = self.vertex_index + 1;
            self.current_vertex = self.vertices[self.vertex_index];
        } else {
            self.vertex_index = self.vertices.len();
            self.current_vertex = 0;
        }
        self.current_vertex_src = self.current_vertex;
    }

    /// Read mode: returns the bit at the current target position of the
    /// current vertex (0 past the end of the sequence) and advances; in
    /// write mode a no-op returning 0.
    pub fn next_bit_from_vertex(&mut self) -> (r: u8)
        requires
            old(self).wf(),
        ensures
            final (self).wf(),
            final (self).mode_spec() == old(self).mode_spec(),
            final (self).bits() == old(self).bits(),
            final (self).verts() == old(self).verts(),
            old(self).mode_spec() != ManipulatorMode::READ ==> r == 0 && *final (self) == *old(
                self,
            ),
            old(self).mode_spec() == ManipulatorMode::READ ==> {
                &&& r == if old(self).vidx() < old(self).verts().len() && bit_at(
                    old(self).verts()[old(self).vidx()],
                    shift_of(old(self).bits(), old(self).cursor()),
                ) {
                    1u8
                } else {
                    0u8
                }
                &&& if old(self).cursor() + 1 < 3 * old(self).bits() {
                    final (self).cursor() == old(self).cursor() + 1 && final (self).vidx() == old(
                        self,
                    ).vidx()
                } else {
                    final (self).cursor() == 0 && final (self).vidx() == if old(self).vidx() < old(
                        self,
                    ).verts().len() {
                        old(self).vidx() + 1
                    } else {
                        old(self).vidx()
                    }
                }
            },
    {
        if self.mode != ManipulatorMode::READ {
            return 0;
        }
        let next_shift = self.shifts[self.shift_cursor];
        let next_bit: u8 = ((self.current_vertex >> (next_shift as u128)) & 1) as u8;
        proof {
            lemma_shift_of_properties(self.bits());
            let v = self.cur();
            let s = next_shift as u128;
            assert((v >> s) & 1 == 0 || (v >> s) & 1 == 1) by (bit_vector);
            assert(next_bit == 1 <==> bit_at(self.cur(), shift_of(self.bits(), self.cursor())));
            if self.vidx() == self.verts().len() {
                assert((0u128 >> s) & 1 == 0) by (bit_vector);
            }
        }
        let is_last_vertex_bit = next_shift == self.last_shift;
        proof {
            assert(shift_of(self.bits(), 3 * self.bits() - 1) == 32);
            assert(is_last_vertex_bit <==> self.cursor() == 3 * self.bits() - 1);
        }
        if is_last_vertex_bit {
            self.advance_vertex();
        } else {
            self.shift_cursor = self.shift_cursor + 1;
        }
        next_bit
    }

    /// Write mode: forces the given bit at the current target position of
    /// the working vertex and advances, returning whether the vertex's
    /// quota wrapped together with the original and transformed keys; in
    /// read mode a no-op returning `(false, 0, 0)`.
    pub fn set_next_bit_in_vertex(&mut self, bit: u8) -> (r: (bool, u128, u128))
        requires
            old(self).wf(),
            bit == 0 || bit == 1,
        ensures
            final (self).wf(),
            final (self).mode_spec() == old(self).mode_spec(),
            final (self).bits() == old(self).bits(),
            final (self).verts() == old(self).verts(),
            old(self).mode_spec() != ManipulatorMode::WRITE ==> r == (false, 0u128, 0u128)
                && *final (self) == *old(self),
            old(self).mode_spec() == ManipulatorMode::WRITE ==> {
                &&& r.1 == old(self).cur_src()
                &&& old(self).vidx() < old(self).verts().len() ==> r.1 == old(self).verts()[old(
                    self,
                ).vidx()]
                &&& r.2 == write_prefix(
                    old(self).cur_src(),
                    old(self).bits(),
                    old(self).written().push(bit == 1),
                )
                &&& r.0 == (old(self).cursor() == 3 * old(self).bits() - 1)
                &&& if !r.0 {
                    final (self).cursor() == old(self).cursor() + 1 && final (self).vidx() == old(
                        self,
                    ).vidx() && final (self).cur_src() == old(self).cur_src() && final (
                    self).written() == old(self).written().push(bit == 1)
                } else {
                    final (self).cursor() == 0 && final (self).written().len() == 0 && final (
                    self).vidx() == if old(self).vidx() < old(self).verts().len() {
                        old(self).vidx() + 1
                    } else {
                        old(self).vidx()
                    }
                }
            },
    {
        if self.mode != ManipulatorMode::WRITE {
            return (false, 0, 0);
        }
        let next_shift = self.shifts[self.shift_cursor];
        let mask: u128 = 1u128 << (next_shift as u128);
        let shifted_bit: u128 = (bit as u128) << (next_shift as u128);
        let ghost old_cur = self.current_vertex;
        self.current_vertex = self.current_vertex & !mask | shifted_bit;
        proof {
            lemma_shift_of_properties(self.bits());
            let p = shift_of(self.bits(), self.cursor());
            assert(32 <= p < 128);
            lemma_set_bit_forms(old_cur, next_shift as u128, bit);
            assert(self.current_vertex == set_bit(old_cur, p, bit == 1));
            assert(self.written@.push(bit == 1).drop_last() =~= self.written@);
            assert(write_prefix(self.cur_src(), self.bits(), self.written@.push(bit == 1))
                == set_bit(old_cur, p, bit == 1));
        }
        self.written = Ghost(self.written@.push(bit == 1));
        let mut is_last_vertex_bit = false;
        let vertex_result_src: u128 = self.current_vertex_src;
        let vertex_result_res: u128 = self.current_vertex;
        proof {
            assert(shift_of(self.bits(), 3 * self.bits() - 1) == 32);
            assert((next_shift == self.last_shift) <==> self.cursor() == 3 * self.bits() - 1);
        }
        if next_shift == self.last_shift {
            is_last_vertex_bit = true;
            self.advance_vertex();
        } else {
            self.shift_cursor = self.shift_cursor + 1;
        }
        (is_last_vertex_bit, vertex_result_src, vertex_result_res)
    }
}

impl VertexManipulator {
    /// The three rows of the masked-bit diagnostic, most-significant bit
    /// leftmost, as ASCII bytes: a guide marking the coordinate block
    /// boundaries, the working vertex's 128 bits, and those bits blanked
    /// wherever the keep mask preserves them (so only payload-carrying
    /// positions stay visible).
    pub fn masked_bit_rows(&self) -> (r: (Vec<u8>, Vec<u8>, Vec<u8>))
        requires
            self.wf(),
        ensures
            r.0@.len() == 128 && r.1@.len() == 128 && r.2@.len() == 128,
            forall|i: int|
                0 <= i < 128 ==> #[trigger] r.0@[i] == if i == 32 || i == 64 || i == 96 {
                    95u8
                } else {
                    32u8
                },
            forall|i: int|
                0 <= i < 128 ==> #[trigger] r.1@[i] == if bit_at(self.cur(), 127 - i) {
                    49u8
                } else {
                    48u8
                },
            forall|i: int|
                0 <= i < 128 ==> #[trigger] r.2@[i] == if crate::addressing::keeps(
                    self.bits(),
                    127 - i,
                ) {
                    32u8
                } else {
                    r.1@[i]
                },
    {
        let mask = match crate::addressing::get_keep_mask(&self.bits_encoding) {
            Ok(m) => m,
            Err(_) => {
                proof {
                    assert(false);
                }
                0
            },
        };
        let mut guide: Vec<u8> = Vec::new();
        let mut vbits: Vec<u8> = Vec::new();
        let mut masked: Vec<u8> = Vec::new();
        let mut i: usize = 0;
        while i < 128
            invariant
                self.wf(),
                i <= 128,
                forall|p: int| 0 <= p < 128 ==> #[trigger] bit_at(mask, p) == crate::addressing::keeps(
                    self.bits(),
                    p,
                ),
                guide@.len() == i && vbits@.len() == i && masked@.len() == i,
                forall|t: int|
                    0 <= t < i ==> #[trigger] guide@[t] == if t == 32 || t == 64 || t == 96 {
                        95u8
                    } else {
                        32u8
                    },
                forall|t: int|
                    0 <= t < i ==> #[trigger] vbits@[t] == if bit_at(self.cur(), 127 - t) {
                        49u8
                    } else {
                        48u8
                    },
                forall|t: int|
                    0 <= t < i ==> #[trigger] masked@[t] == if crate::addressing::keeps(
                        self.bits(),
                        127 - t,
                    ) {
                        32u8
                    } else {
                        vbits@[t]
                    },
            decreases 128 - i,
        {
            let shift: u128 = (127 - i) as u128;
            let bit_char: u8 = if (self.current_vertex >> shift) & 1 == 1 {
                49
            } else {
                48
            };
            let kept = (mask >> shift) & 1 == 1;
            proof {
                let p = 127 - (i as int);
                assert(shift == p as u128);
                assert(kept == bit_at(mask, p));
                assert(kept == crate::addressing::keeps(self.bits(), p));
            }
            guide.push(
                if i == 32 || i == 64 || i == 96 {
                    95
                } else {
                    32
                },
            );
            vbits.push(bit_char);
            masked.push(
                if kept {
                    32
                } else {
                    bit_char
                },
            );
            i = i + 1;
        }
        (guide, vbits, masked)
    }
}

proof fn lemma_set_bit_forms(v: u128, p: u128, bit: u8)
    by (bit_vector)
    requires
        p < 128,
        bit == 0 || bit == 1,
    ensures
        bit == 1 ==> (v & !(1u128 << p) | ((bit as u128) << p)) == (v | (1u128 << p)),
        bit == 0 ==> (v & !(1u128 << p) | ((bit as u128) << p)) == (v & !(1u128 << p)),
{
}

} // verus!
