//! Unique id generator: packs a millisecond timestamp and a per-process
//! sequence counter into one 64-bit id.

use vstd::prelude::*;

verus! {

/// Where the id space starts, in milliseconds since the Unix epoch.
pub const EPOCH_MILLIS: i64 = 1728691200000;

/// Unique id generator.
pub struct Snowflake {
    seq: i64,
}

impl Snowflake {
    #[verifier::type_invariant]
    closed spec fn wf(self) -> bool {
        0 <= self.seq <= 0x1FFF
    }

    /// The sequence number the next id will carry.
    pub closed spec fn sequence(self) -> int {
        self.seq as int
    }

    /// Creates a [`Snowflake`].
    pub fn new() -> (r: Snowflake)
        ensures
            r.sequence() == 0,
    {
        Snowflake { seq: 0 }
    }

    /// Generates the next id for the given current time: the milliseconds
    /// since the epoch in the high bits, the sequence number in the low 13.
    /// The sequence steps by one per id and wraps after 8191.
    pub fn gen_id(&mut self, now_millis: i64) -> (id: i64)
        requires
            EPOCH_MILLIS <= now_millis < EPOCH_MILLIS + 0x200_0000_0000,
        ensures
            id == (now_millis - EPOCH_MILLIS) * 0x400000 + old(self).sequence(),
            final(self).sequence() == if old(self).sequence() + 1 > 0x1FFF {
                0int
            } else {
                old(self).sequence() + 1
            },
    {
        proof {
            use_type_invariant(&*self);
        }
        let du = (now_millis - EPOCH_MILLIS) as u64;
        let tu = du & 0x3FF_FFFF_FFFF;
        let su = self.seq as u64;
        let idu = (tu << 22u64) | su;
        proof {
            assert(du & 0x3FF_FFFF_FFFF == du) by (bit_vector)
                requires
                    du < 0x200_0000_0000u64,
            ;
            vstd::arithmetic::power2::lemma2_to64();
            assert(tu * 0x400000 <= u64::MAX) by (nonlinear_arith)
                requires
                    tu < 0x200_0000_0000u64,
            ;
            vstd::bits::lemma_u64_shl_is_mul(tu, 22);
            assert((tu << 22u64) | su == (tu << 22u64) + su) by (bit_vector)
                requires
                    su <= 0x1FFFu64,
            ;
            assert(idu == (now_millis - EPOCH_MILLIS) * 0x400000 + self.seq);
        }
        let id = idu as i64;
        let next = if self.seq + 1 > 0x1FFF {
            0
        } else {
            self.seq + 1
        };
        self.seq = next;
        id
    }
}

} // verus!
