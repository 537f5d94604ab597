//! A shadow of the per-slot insert and delete history of a binary-tree
//! encoder that inserts slots in write order: one tick per byte, the first
//! 17 inserts skipped after the initial lookahead has been inserted at tick 0.
use vstd::prelude::*;

verus! {

/// Where the byte last deleted from a slot came from.
#[derive(Clone, Copy, Debug, PartialEq, Eq, Structural)]
pub enum Origin {
    Never,
    Literal,
    Match,
}

/// The shadow state: per slot, the tick of its last insert and last delete
/// (-1 for never) and the origin of its last deleted byte.
pub struct ShadowTree {
    pub last_insert_tick: Vec<i64>,
    pub last_delete_tick: Vec<i64>,
    pub origin: Vec<Origin>,
    pub skip_inserts: usize,
    pub tick: i64,
}

impl ShadowTree {
    /// All per-slot tables have 4096 entries.
    pub open spec fn wf(&self) -> bool {
        &&& self.last_insert_tick@.len() == 4096
        &&& self.last_delete_tick@.len() == 4096
        &&& self.origin@.len() == 4096
    }

    /// Whether slot `pos` is in the tree: its last insert is newer than its
    /// last delete.
    pub open spec fn in_tree(&self, pos: int) -> bool {
        self.last_insert_tick@[pos] > self.last_delete_tick@[pos]
    }

    /// The shadow after the initial lookahead `r_init..r_init + 18` (modulo
    /// 4096) has been inserted at tick 0.
    pub fn new(r_init: i32) -> (t: ShadowTree)
        requires
            r_init + 17 <= i32::MAX,
        ensures
            t.wf(),
            forall|m: int|
                0 <= m < 4096 ==> #[trigger] t.last_insert_tick@[m] == (if (m - r_init) % 4096 < 18 {
                    0i64
                } else {
                    -1i64
                }),
            forall|m: int| 0 <= m < 4096 ==> #[trigger] t.last_delete_tick@[m] == -1i64,
            forall|m: int| 0 <= m < 4096 ==> #[trigger] t.origin@[m] == Origin::Never,
            t.skip_inserts == 17,
            t.tick == 0,
            forall|m: int| 0 <= m < 4096 ==> #[trigger] t.in_tree(m) == ((m - r_init) % 4096 < 18),
    {
        let mut ins: Vec<i64> = Vec::new();
        let mut del: Vec<i64> = Vec::new();
        let mut origin: Vec<Origin> = Vec::new();
        let mut i: usize = 0;
        while i < 4096
            invariant
                i <= 4096,
                ins@.len() == i,
                del@.len() == i,
                origin@.len() == i,
                forall|m: int| 0 <= m < i ==> ins@[m] == -1i64,
                forall|m: int| 0 <= m < i ==> del@[m] == -1i64,
                forall|m: int| 0 <= m < i ==> origin@[m] == Origin::Never,
            decreases 4096 - i,
        {
            ins.push(-1);
            del.push(-1);
            origin.push(Origin::Never);
            i += 1;
        }
        let mut k: i32 = 0;
        while k < 18
            invariant
                0 <= k <= 18,
                r_init + 17 <= i32::MAX,
                ins@.len() == 4096,
                forall|m: int|
                    0 <= m < 4096 ==> #[trigger] ins@[m] == (if (m - r_init) % 4096 < k {
                        0i64
                    } else {
                        -1i64
                    }),
            decreases 18 - k,
        {
            let x = r_init + k;
            let p = match x.checked_rem_euclid(4096) {
                Some(v) => v,
                None => 0,
            };
            assert(p as int == (r_init + k) % 4096);
            ins.set(p as usize, 0);
            proof {
                assert forall|m: int| 0 <= m < 4096 implies #[trigger] ins@[m] == (if (m - r_init) % 4096
                    < k + 1 {
                    0i64
                } else {
                    -1i64
                }) by {
                    vstd::arithmetic::div_mod::lemma_fundamental_div_mod(m - r_init, 4096);
                    vstd::arithmetic::div_mod::lemma_fundamental_div_mod(r_init + k, 4096);
                    if (m - r_init) % 4096 == k {
                        vstd::arithmetic::div_mod::lemma_mod_multiples_vanish(
                            (m - r_init) / 4096,
                            r_init + k,
                            4096,
                        );
                    }
                    if m == p {
                        vstd::arithmetic::div_mod::lemma_mod_multiples_vanish(
                            -((r_init + k) / 4096),
                            k as int,
                            4096,
                        );
                    }
                }
            }
            k += 1;
        }
        ShadowTree {
            last_insert_tick: ins,
            last_delete_tick: del,
            origin,
            skip_inserts: 17,
            tick: 0,
        }
    }

    /// One byte: the slot `s_before` (modulo 4096) is deleted, then, unless
    /// inserts are still skipped, the slot 4078 after `s_before + 1` is
    /// inserted; the tick advances.
    pub fn on_byte(&mut self, s_before: i32, is_match: bool)
        requires
            old(self).wf(),
            s_before < i32::MAX,
            old(self).tick < i64::MAX,
        ensures
            final(self).wf(),
            final(self).last_delete_tick@ == old(self).last_delete_tick@.update(
                s_before as int % 4096,
                old(self).tick,
            ),
            final(self).origin@ == old(self).origin@.update(
                s_before as int % 4096,
                if is_match {
                    Origin::Match
                } else {
                    Origin::Literal
                },
            ),
            final(self).last_insert_tick@ == (if old(self).skip_inserts > 0 {
                old(self).last_insert_tick@
            } else {
                old(self).last_insert_tick@.update(
                    ((s_before + 1) % 4096 + 4078) % 4096,
                    old(self).tick,
                )
            }),
            final(self).skip_inserts == (if old(self).skip_inserts > 0 {
                old(self).skip_inserts - 1
            } else {
                0
            }),
            final(self).tick == old(self).tick + 1,
    {
        let deleted = match s_before.checked_rem_euclid(4096) {
            Some(v) => v,
            None => 0,
        };
        self.last_delete_tick.set(deleted as usize, self.tick);
        self.origin.set(
            deleted as usize,
            if is_match {
                Origin::Match
            } else {
                Origin::Literal
            },
        );
        let s_new = match (s_before + 1).checked_rem_euclid(4096) {
            Some(v) => v,
            None => 0,
        };
        let r_new = match (s_new + 4078).checked_rem_euclid(4096) {
            Some(v) => v,
            None => 0,
        };
        if self.skip_inserts > 0 {
            self.skip_inserts = self.skip_inserts - 1;
        } else {
            self.last_insert_tick.set(r_new as usize, self.tick);
        }
        self.tick = self.tick + 1;
    }

    /// Marks every slot in `evicted` as deleted at the current tick.
    pub fn apply_replace_log(&mut self, evicted: &[i32])
        requires
            old(self).wf(),
            forall|i: int| 0 <= i < evicted@.len() ==> 0 <= #[trigger] evicted@[i] < 4096,
        ensures
            final(self).wf(),
            forall|m: int|
                0 <= m < 4096 ==> #[trigger] final(self).last_delete_tick@[m] == (if evicted@.contains(
                    m as i32,
                ) {
                    old(self).tick
                } else {
                    old(self).last_delete_tick@[m]
                }),
            final(self).last_insert_tick@ == old(self).last_insert_tick@,
            final(self).origin@ == old(self).origin@,
            final(self).skip_inserts == old(self).skip_inserts,
            final(self).tick == old(self).tick,
    {
        let mut i: usize = 0;
        while i < evicted.len()
            invariant
                self.wf(),
                i <= evicted@.len(),
                forall|j: int| 0 <= j < evicted@.len() ==> 0 <= #[trigger] evicted@[j] < 4096,
                forall|m: int|
                    0 <= m < 4096 ==> #[trigger] self.last_delete_tick@[m] == (if evicted@.take(
                        i as int,
                    ).contains(m as i32) {
                        old(self).tick
                    } else {
                        old(self).last_delete_tick@[m]
                    }),
                self.last_insert_tick@ == old(self).last_insert_tick@,
                self.origin@ == old(self).origin@,
                self.skip_inserts == old(self).skip_inserts,
                self.tick == old(self).tick,
            decreases evicted@.len() - i,
        {
            let p = evicted[i];
            let ghost before = evicted@.take(i as int);
            let ghost after = evicted@.take(i + 1);
            self.last_delete_tick.set(p as usize, self.tick);
            proof {
                assert(after =~= before.push(p));
                assert forall|m: int| 0 <= m < 4096 implies #[trigger] self.last_delete_tick@[m] == (if after.contains(
                    m as i32,
                ) {
                    old(self).tick
                } else {
                    old(self).last_delete_tick@[m]
                }) by {
                    if after.contains(m as i32) && m != p {
                        let j = choose|j: int| 0 <= j < after.len() && after[j] == m as i32;
                        assert(before[j] == m as i32);
                    }
                    if before.contains(m as i32) {
                        let j = choose|j: int| 0 <= j < before.len() && before[j] == m as i32;
                        assert(after[j] == m as i32);
                    }
                    if m == p {
                        assert(after[i as int] == m as i32);
                    }
                }
            }
            i += 1;
        }
        assert(evicted@.take(evicted@.len() as int) =~= evicted@);
    }

    /// Whether slot `pos` is in the tree.
    pub fn in_tree_at(&self, pos: u16) -> (b: bool)
        requires
            self.wf(),
            pos < 4096,
        ensures
            b == self.in_tree(pos as int),
    {
        let p = pos as usize;
        self.last_insert_tick[p] > self.last_delete_tick[p]
    }
}

} // verus!
