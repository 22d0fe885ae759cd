//! Snowflake-style id generation: 64-bit ids that grow with the clock,
//! carrying a machine and node number so that distinct hosts draw from
//! distinct ranges.

use vstd::prelude::*;
use crate::platform::now_millis;

verus! {

/// Generates monotonically increasing 64-bit ids.
#[derive(Debug)]
pub struct SnowflakeIdGenerator {
    machine_id: u16,
    node_id: u16,
    last_millis: u64,
    sequence: u16,
}

impl SnowflakeIdGenerator {
    /// The generator is in range: the clock part fits 41 bits, the two
    /// host parts 5 bits each, the sequence 12 bits.
    pub closed spec fn wf(&self) -> bool {
        &&& self.last_millis < 0x200_0000_0000u64
        &&& self.machine_id < 32
        &&& self.node_id < 32
        &&& self.sequence < 4096
    }

    /// The id the generator's state spells.
    pub closed spec fn spec_id(&self) -> int {
        self.last_millis * 0x400000 + self.machine_id * 0x20000 + self.node_id * 0x1000
            + self.sequence
    }

    /// A fresh generator for the given host numbers; the ids it hands
    /// out only ever grow.
    pub fn new(machine_id: u16, node_id: u16) -> (r: Self)
        ensures
            r.wf(),
            r.spec_id() >= 0,
    {
        SnowflakeIdGenerator {
            machine_id: machine_id % 32,
            node_id: node_id % 32,
            last_millis: 0,
            sequence: 0,
        }
    }

    /// The generator has room left in its 63-bit id space.
    pub closed spec fn unsaturated(&self) -> bool {
        self.last_millis < 0x1FF_FFFF_FFFFu64 || self.sequence < 4095
    }

    /// The next id, given the present wall-clock reading: no earlier
    /// than every id this generator handed out before — and strictly
    /// later while the id space has room — and never zero.
    pub fn generate(&mut self, now: u64) -> (r: i64)
        requires
            old(self).wf(),
            1 <= now,
        ensures
            final(self).wf(),
            r == final(self).spec_id(),
            final(self).spec_id() >= old(self).spec_id(),
            old(self).unsaturated() ==> final(self).spec_id() > old(self).spec_id(),
            r > 0,
    {
        let now_clipped = if now >= 0x1FF_FFFF_FFFFu64 {
            0x1FF_FFFF_FFFEu64
        } else {
            now
        };
        if now_clipped > self.last_millis {
            self.last_millis = now_clipped;
            self.sequence = 0;
        } else if self.sequence < 4095 {
            self.sequence = self.sequence + 1;
        } else if self.last_millis < 0x1FF_FFFF_FFFFu64 {
            self.last_millis = self.last_millis + 1;
            self.sequence = 0;
        }
        proof {
            let g0 = old(self);
            let g1 = *self;
            assert(g1.last_millis >= 1);
            let l0 = g0.last_millis as int;
            let s0 = g0.sequence as int;
            let l1 = g1.last_millis as int;
            let s1 = g1.sequence as int;
            let m = g1.machine_id as int;
            let n = g1.node_id as int;
            let id0 = l0 * 0x400000 + m * 0x20000 + n * 0x1000 + s0;
            let id1 = l1 * 0x400000 + m * 0x20000 + n * 0x1000 + s1;
            assert(g0.spec_id() == id0);
            assert(g1.spec_id() == id1);
            assert(id1 >= id0 && ((l0 < 0x1FF_FFFF_FFFF || s0 < 4095) ==> id1 > id0))
                by (nonlinear_arith)
                requires
                    l0 < 0x200_0000_0000,
                    l1 < 0x200_0000_0000,
                    0 <= s0 < 4096,
                    0 <= s1 < 4096,
                    id0 == l0 * 0x400000 + m * 0x20000 + n * 0x1000 + s0,
                    id1 == l1 * 0x400000 + m * 0x20000 + n * 0x1000 + s1,
                    (l1 > l0 && s1 == 0) || (l1 == l0 && (s1 == s0 + 1 || (s1 == s0 && s0 == 4095
                        && l0 >= 0x1FF_FFFF_FFFF))),
            ;
            assert(id1 <= i64::MAX && id1 > 0) by (nonlinear_arith)
                requires
                    1 <= l1 < 0x200_0000_0000,
                    0 <= m < 32,
                    0 <= n < 32,
                    0 <= s1 < 4096,
                    id1 == l1 * 0x400000 + m * 0x20000 + n * 0x1000 + s1,
            ;
        }
        let id: u64 = self.last_millis * 0x400000 + (self.machine_id as u64) * 0x20000 + (
        self.node_id as u64) * 0x1000 + (self.sequence as u64);
        id as i64
    }

    /// The next id, read off the wall clock now.
    pub fn real_time_generate(&mut self) -> (r: i64)
        requires
            old(self).wf(),
        ensures
            final(self).wf(),
            r == final(self).spec_id(),
            final(self).spec_id() >= old(self).spec_id(),
            old(self).unsaturated() ==> final(self).spec_id() > old(self).spec_id(),
            r > 0,
    {
        let t = now_millis();
        let now64: u64 = if t < 1 {
            1
        } else if t > 0xFFFF_FFFF_FFFFu128 {
            0xFFFF_FFFF_FFFFu64
        } else {
            t as u64
        };
        self.generate(now64)
    }
}

} // verus!
