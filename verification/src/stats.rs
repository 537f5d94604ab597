//! Tallies of how closely re-encoded files match their originals: whole-file
//! matches, payload matches, and the number of differing payload bytes.
use vstd::prelude::*;

verus! {

/// Running tallies over the files recorded so far.
#[derive(Clone, Copy, Debug, PartialEq, Eq, Structural)]
pub struct Stats {
    pub total: usize,
    pub binary_match: usize,
    pub payload_match: usize,
    pub total_payload_diff: u64,
    pub payload_diff_counted: u64,
}

impl Default for Stats {
    fn default() -> (s: Stats)
        ensures
            s == (Stats {
                total: 0,
                binary_match: 0,
                payload_match: 0,
                total_payload_diff: 0,
                payload_diff_counted: 0,
            }),
    {
        Stats { total: 0, binary_match: 0, payload_match: 0, total_payload_diff: 0, payload_diff_counted: 0 }
    }
}

/// Where the payload starts in an LF2 file that has its palette-size byte.
pub open spec fn payload_offset(original: Seq<u8>) -> int {
    0x18 + 3 * original[0x16]
}

/// How many of the first `n` positions hold different bytes.
pub open spec fn count_diff(a: Seq<u8>, b: Seq<u8>, n: int) -> nat
    decreases n,
{
    if n <= 0 {
        0
    } else {
        count_diff(a, b, n - 1) + if a[n - 1] != b[n - 1] {
            1nat
        } else {
            0nat
        }
    }
}

/// Differing bytes of two payloads: the positions both have that differ,
/// plus the length difference.
pub open spec fn payload_diff(a: Seq<u8>, b: Seq<u8>) -> nat {
    let ml = if a.len() < b.len() {
        a.len()
    } else {
        b.len()
    };
    let mx = if a.len() < b.len() {
        b.len()
    } else {
        a.len()
    };
    count_diff(a, b, ml as int) + (mx - ml) as nat
}

impl Stats {
    /// Records one file and its re-encoding: a whole-file match, and, when
    /// both reach past the palette, a payload match or the number of
    /// differing payload bytes.
    pub fn record(&mut self, original: &[u8], reenc: &[u8])
        requires
            old(self).total < usize::MAX,
            old(self).binary_match < usize::MAX,
            old(self).payload_match < usize::MAX,
            old(self).payload_diff_counted < u64::MAX,
            old(self).total_payload_diff + original@.len() + reenc@.len() <= u64::MAX,
        ensures
            final(self).total == old(self).total + 1,
            final(self).binary_match == old(self).binary_match + if original@ == reenc@ {
                1int
            } else {
                0int
            },
            ({
                let ps = payload_offset(original@);
                let reach = original@.len() > 0x16 && ps < original@.len() && ps < reenc@.len();
                let a = original@.skip(ps);
                let b = reenc@.skip(ps);
                &&& final(self).payload_match == old(self).payload_match + if reach && a == b {
                    1int
                } else {
                    0int
                }
                &&& final(self).payload_diff_counted == old(self).payload_diff_counted + if reach && a
                    != b {
                    1int
                } else {
                    0int
                }
                &&& final(self).total_payload_diff == old(self).total_payload_diff + if reach && a
                    != b {
                    payload_diff(a, b) as int
                } else {
                    0int
                }
            }),
    {
        self.total = self.total + 1;
        if bytes_equal(original, reenc) {
            self.binary_match = self.binary_match + 1;
        }
        if original.len() <= 0x16 {
            return;
        }
        let color_count = original[0x16] as usize;
        let payload_start = 0x18 + color_count * 3;
        if payload_start >= original.len() || payload_start >= reenc.len() {
            return;
        }
        let ghost a = original@.skip(payload_start as int);
        let ghost b = reenc@.skip(payload_start as int);
        let la = original.len() - payload_start;
        let lb = reenc.len() - payload_start;
        let ml = if la < lb {
            la
        } else {
            lb
        };
        let mx = if la < lb {
            lb
        } else {
            la
        };
        let on = original.len();
        let mut c: u64 = 0;
        let mut same = la == lb;
        let mut i: usize = 0;
        while i < ml
            invariant
                a == original@.skip(payload_start as int),
                b == reenc@.skip(payload_start as int),
                la == a.len(),
                lb == b.len(),
                ml <= la,
                ml <= lb,
                payload_start < original@.len(),
                payload_start < reenc@.len(),
                on == original@.len(),
                la == original@.len() - payload_start,
                lb == reenc@.len() - payload_start,
                i <= ml,
                c == count_diff(a, b, i as int),
                c <= i,
                same <==> (la == lb && forall|j: int| 0 <= j < i ==> a[j] == b[j]),
            decreases ml - i,
        {
            assert(a[i as int] == original@[payload_start + i]);
            assert(b[i as int] == reenc@[payload_start + i]);
            if original[payload_start + i] != reenc[payload_start + i] {
                c = c + 1;
                same = false;
            }
            i += 1;
        }
        if same {
            assert(a =~= b);
            self.payload_match = self.payload_match + 1;
        } else {
            assert(a != b) by {
                if a == b {
                    assert(la == lb);
                    assert forall|j: int| 0 <= j < ml implies a[j] == b[j] by {}
                }
            }
            c = c + (mx - ml) as u64;
            self.total_payload_diff = self.total_payload_diff + c;
            self.payload_diff_counted = self.payload_diff_counted + 1;
        }
    }
}

/// Whether two byte strings are equal.
pub fn bytes_equal(a: &[u8], b: &[u8]) -> (eq: bool)
    ensures
        eq == (a@ == b@),
{
    if a.len() != b.len() {
        return false;
    }
    let mut i: usize = 0;
    while i < a.len()
        invariant
            a@.len() == b@.len(),
            i <= a@.len(),
            forall|j: int| 0 <= j < i ==> a@[j] == b@[j],
        decreases a@.len() - i,
    {
        if a[i] != b[i] {
            return false;
        }
        i += 1;
    }
    assert(a@ =~= b@);
    true
}

} // verus!
