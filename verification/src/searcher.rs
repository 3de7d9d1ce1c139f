//! Greedy single-slot match finder: a hash table over the next four input
//! bytes, each slot remembering the most recent position that hashed to it.
//! Its one promise is soundness: any match it proposes really repeats earlier
//! input within the encodable distance and length ranges.

use vstd::prelude::*;
use crate::{TOTAL_BACKREF_LEN, TOTAL_BACKREF_POS};

verus! {

/// Number of hash-table slots; a power of two.
pub const HASH_COUNT: usize = 4096 * 16;

/// Slot value meaning "no position recorded".
pub const NO_ENTRY: u32 = 0xFFFFFFFF;

/// The table slot that the four bytes at `p` select: a multiplicative hash
/// of the bytes read as a 32-bit little-endian word, keeping bits 16 to 31.
pub open spec fn hash_slot(data: Seq<u8>, p: int) -> nat {
    ((data[p] + data[p + 1] * 256 + data[p + 2] * 65536 + data[p + 3] * 16777216) as nat
        * 2654435761) % 4294967296 / 65536
}

/// Multiplicative hash of four consecutive bytes, reduced to a table index.
pub fn make_hash(sequence: [u8; 4]) -> (r: u32)
    ensures
        r < 0x10000,
        r as nat == (sequence@[0] + sequence@[1] * 256 + sequence@[2] * 65536 + sequence@[3]
            * 16777216) as nat * 2654435761 % 4294967296 / 65536,
{
    let x: u64 = sequence[0] as u64 + sequence[1] as u64 * 256 + sequence[2] as u64 * 65536
        + sequence[3] as u64 * 16777216;
    let h: u64 = (x * 2654435761) % 4294967296;
    (h / 65536) as u32
}

/// Length of the common prefix of the bytes starting at `prev` and at `cur`,
/// compared until the end of `data` (the `cur` side runs out first).
pub open spec fn common_len(data: Seq<u8>, prev: int, cur: int) -> nat
    decreases data.len() - cur,
{
    if 0 <= prev && prev < cur && cur < data.len() && data[prev] == data[cur] {
        1 + common_len(data, prev + 1, cur + 1)
    } else {
        0
    }
}

pub proof fn lemma_common_len(data: Seq<u8>, prev: int, cur: int, m: nat)
    requires
        0 <= prev < cur <= data.len(),
        cur + m <= data.len(),
        forall|i: int| 0 <= i < m ==> #[trigger] data[prev + i] == data[cur + i],
        cur + m == data.len() || data[prev + m] != data[cur + m],
    ensures
        common_len(data, prev, cur) == m,
    decreases m,
{
    if m == 0 {
        if cur < data.len() {
            assert(data[prev + 0] != data[cur + 0]);
        }
    } else {
        let z: int = 0;
        assert(data[prev + z] == data[cur + z]);
        assert forall|i: int| 0 <= i < m - 1 implies #[trigger] data[prev + 1 + i] == data[cur + 1
            + i] by {
            let j = i + 1;
            assert(data[prev + j] == data[cur + j]);
            assert(prev + 1 + i == prev + j && cur + 1 + i == cur + j);
        }
        assert(cur + 1 + (m - 1) == data.len() || data[prev + 1 + (m - 1)] != data[cur + 1 + (m
            - 1)]);
        lemma_common_len(data, prev + 1, cur + 1, (m - 1) as nat);
    }
}

/// The single-slot hash table of candidate match positions.
pub struct MatchSearcher {
    pub search_dict: Vec<u32>,
}

impl MatchSearcher {
    /// Every recorded position lies below `bound` (empty slots hold
    /// `NO_ENTRY`).
    pub open spec fn wf(self, bound: nat) -> bool {
        &&& self.search_dict@.len() == HASH_COUNT
        &&& forall|i: int|
            0 <= i < HASH_COUNT ==> #[trigger] self.search_dict@[i] == NO_ENTRY || (
            self.search_dict@[i] as nat) < bound
    }

    pub proof fn lemma_wf_mono(self, b1: nat, b2: nat)
        requires
            self.wf(b1),
            b1 <= b2,
        ensures
            self.wf(b2),
    {
    }

    pub fn new() -> (r: Self)
        ensures
            r.wf(0),
    {
        let mut v: Vec<u32> = Vec::new();
        let mut i: usize = 0;
        while i < HASH_COUNT
            invariant
                i <= HASH_COUNT,
                v@.len() == i,
                forall|j: int| 0 <= j < i ==> #[trigger] v@[j] == NO_ENTRY,
            decreases HASH_COUNT - i,
        {
            v.push(NO_ENTRY);
            i = i + 1;
        }
        MatchSearcher { search_dict: v }
    }

    /// Records `cur_pos` as the latest position whose next four bytes hash to
    /// its slot; does nothing when fewer than four bytes remain.
    pub fn submit_val(&mut self, data: &[u8], cur_pos: u32)
        requires
            old(self).wf(cur_pos as nat),
            cur_pos as nat <= data@.len(),
        ensures
            final(self).wf(cur_pos as nat + 1),
            data@.len() < cur_pos as nat + 4 ==> *final(self) == *old(self),
            data@.len() >= cur_pos as nat + 4 ==> final(self).search_dict@ == old(
                self,
            ).search_dict@.update(hash_slot(data@, cur_pos as int) as int, cur_pos),
    {
        proof {
            old(self).lemma_wf_mono(cur_pos as nat, cur_pos as nat + 1);
        }
        let rest_len = data.len() - cur_pos as usize;
        if rest_len < 4 {
            return;
        }
        let p = cur_pos as usize;
        let hash = make_hash([data[p], data[p + 1], data[p + 2], data[p + 3]]) % (
        HASH_COUNT as u32);
        self.search_dict[hash as usize] = cur_pos;
        proof {
            assert(forall|i: int|
                0 <= i < HASH_COUNT && i != hash as int ==> #[trigger] self.search_dict@[i]
                    == old(self).search_dict@[i]);
        }
    }

    /// The exact greedy proposal: the slot candidate for the four bytes at
    /// `cur`, dropped when absent, too far back, or matching fewer than four
    /// bytes; otherwise its distance with the common-prefix length capped at
    /// the largest encodable length.
    pub open spec fn proposal(self, data: Seq<u8>, cur: u32) -> Option<(u32, u32)> {
        if data.len() < cur + 4 {
            None
        } else {
            let prev = self.search_dict@[hash_slot(data, cur as int) as int];
            if prev == NO_ENTRY {
                None
            } else if cur - prev > 0xFFF {
                None
            } else {
                let m = common_len(data, prev as int, cur as int);
                if m < 4 {
                    None
                } else {
                    Some(
                        (
                            (cur - prev) as u32,
                            (if m > 0x10110 {
                                0x10110nat
                            } else {
                                m
                            }) as u32,
                        ),
                    )
                }
            }
        }
    }

    /// Proposes a back-reference for the input at `cur_pos`: exactly
    /// `proposal`, and on `Some` a `(distance, length)` pair that provably
    /// repeats earlier input and fits the encodable ranges.
    pub fn get_lz_code(&self, data: &[u8], cur_pos: u32) -> (r: Option<(u32, u32)>)
        requires
            self.wf(cur_pos as nat),
            cur_pos as nat <= data@.len(),
            data@.len() <= 0xFFFFFFFF,
        ensures
            r == self.proposal(data@, cur_pos),
            r matches Some(dl) ==> {
                &&& 1 <= dl.0 <= 0xFFF
                &&& 4 <= dl.1 <= 0x10110
                &&& dl.0 <= cur_pos
                &&& cur_pos as nat + dl.1 as nat <= data@.len()
                &&& forall|i: int|
                    0 <= i < dl.1 ==> #[trigger] data@[cur_pos + i] == data@[cur_pos - dl.0 + i]
            },
    {
        let rest_len = data.len() - cur_pos as usize;
        if rest_len < 4 {
            return None;
        }
        let p = cur_pos as usize;
        let hash = make_hash([data[p], data[p + 1], data[p + 2], data[p + 3]]) % (
        HASH_COUNT as u32);
        let prev = self.search_dict[hash as usize];
        if prev == NO_ENTRY {
            return None;
        }
        let match_backref = cur_pos - prev;
        if match_backref > TOTAL_BACKREF_POS {
            return None;
        }
        let prev_us = prev as usize;
        let mut match_len: usize = 0;
        while p + match_len < data.len() && data[prev_us + match_len] == data[p + match_len]
            invariant
                data@.len() <= 0xFFFFFFFF,
                prev_us < p <= data@.len(),
                p + match_len <= data@.len(),
                forall|i: int|
                    0 <= i < match_len ==> #[trigger] data@[p + i] == data@[prev_us + i],
            decreases data@.len() - p - match_len,
        {
            match_len = match_len + 1;
        }
        proof {
            lemma_common_len(
                data@,
                prev_us as int,
                p as int,
                match_len as nat,
            );
        }
        if match_len < 4 {
            return None;
        }
        let capped: u32 = if match_len > TOTAL_BACKREF_LEN as usize {
            TOTAL_BACKREF_LEN
        } else {
            match_len as u32
        };
        Some((match_backref, capped))
    }
}

} // verus!
