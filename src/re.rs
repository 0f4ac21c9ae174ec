//! Exhaustive search for the master key of a vault, without the key.
use crate::pins::{
    decode_spec, decrypt, record_count, slot_at, valid_vault, word_at, slot_ok, VaultError,
};
use vstd::arithmetic::div_mod::{
    lemma_fundamental_div_mod, lemma_fundamental_div_mod_converse, lemma_mod_add_multiples_vanish,
    lemma_mod_multiples_basic, lemma_mod_pos_bound, lemma_mod_sub_multiples_vanish,
};
use vstd::prelude::*;

verus! {

/// The end of the candidate space: master keys below it are searched.
pub const SPACE_END: u32 = 1_000_000_000;

/// The largest plaintext that a real pin can hold (nine decimal digits).
pub const MAX_PLAUSIBLE: u32 = 999_999_999;

/// One encrypted record as stored: its slot and its ciphertext word.
#[derive(Clone, Copy)]
struct RawPin {
    id: u8,
    pin: u32,
}

/// A master key that decodes some records of the vault to interesting
/// values, and how many.
#[derive(Debug, Clone, Copy, PartialEq, Eq, Structural)]
pub struct SusMaster {
    pub master: u32,
    pub score: u32,
}

/// The plaintexts that careless users pick: zero and the two digit runs.
pub open spec fn is_weak(v: u32) -> bool {
    v == 0 || v == 123_456_789 || v == 987_654_321
}

/// What counts as a hit: a weak value, or one of the `known` values.
pub open spec fn accepts(heuristic: bool, known: Seq<u32>, v: u32) -> bool {
    if heuristic {
        is_weak(v)
    } else {
        known.contains(v)
    }
}

/// Every record decodes under `master` to a value of at most nine digits.
pub open spec fn plausible(recs: Seq<(u8, u32)>, master: u32) -> bool {
    forall|i: int|
        0 <= i < recs.len() ==> #[trigger] decode_spec(master, recs[i].0, recs[i].1)
            <= MAX_PLAUSIBLE
}

/// How many records decode under `master` to an accepted value.
pub open spec fn hits(recs: Seq<(u8, u32)>, master: u32, heuristic: bool, known: Seq<u32>) -> nat
    decreases recs.len(),
{
    if recs.len() == 0 {
        0
    } else {
        let last = recs.last();
        hits(recs.drop_last(), master, heuristic, known) + if accepts(
            heuristic,
            known,
            decode_spec(master, last.0, last.1),
        ) {
            1nat
        } else {
            0nat
        }
    }
}

/// The score of candidate `master`: its hits, or zero as soon as one record
/// decodes out of range.
pub open spec fn score(recs: Seq<(u8, u32)>, master: u32, heuristic: bool, known: Seq<u32>) -> nat {
    if plausible(recs, master) {
        hits(recs, master, heuristic, known)
    } else {
        0
    }
}

/// Candidate `c` lies in the stride that starts at `i` with step `t`.
pub open spec fn in_stride(c: int, i: int, t: int) -> bool {
    c >= i && (c - i) % t == 0
}

/// The candidates `m, m + step, ...` below `bound` with a positive score, in
/// increasing order, each with its score.
pub open spec fn found(
    recs: Seq<(u8, u32)>,
    heuristic: bool,
    known: Seq<u32>,
    m: int,
    step: int,
    bound: int,
) -> Seq<SusMaster>
    decreases (if m < bound {
        bound - m
    } else {
        0
    }),
{
    if m >= bound || step <= 0 {
        Seq::empty()
    } else {
        let rest = found(recs, heuristic, known, m + step, step, bound);
        let sc = score(recs, m as u32, heuristic, known);
        if sc > 0 {
            seq![SusMaster { master: m as u32, score: sc as u32 }] + rest
        } else {
            rest
        }
    }
}

/// The end of the range that a worker searches: `max`, or the whole space.
pub open spec fn bound_of(max: Option<u32>) -> int {
    match max {
        Some(m) => m as int,
        None => SPACE_END as int,
    }
}

/// The loaded vault that a search runs over.
pub struct Cracker {
    pins: Vec<RawPin>,
}

impl Cracker {
    /// The records, as (slot, ciphertext word), in file order.
    pub closed spec fn records(&self) -> Seq<(u8, u32)> {
        self.pins@.map_values(|r: RawPin| (r.id, r.pin))
    }

    /// At most 255 records, each in a slot of at most 99.
    pub open spec fn wf(&self) -> bool {
        &&& self.records().len() <= 255
        &&& forall|i: int| 0 <= i < self.records().len() ==> #[trigger] self.records()[i].0 <= 99
    }

    /// Reads the records of the vault in `bytes`, without decrypting them.
    pub fn load(bytes: &[u8]) -> (r: Self)
        requires
            valid_vault(bytes@),
        ensures
            r.wf(),
            r.records().len() == record_count(bytes@),
            forall|k: int|
                0 <= k < record_count(bytes@) ==> #[trigger] r.records()[k] == (
                    slot_at(bytes@, k),
                    word_at(bytes@, k),
                ),
    {
        let n = bytes[0] as usize;
        let mut pins: Vec<RawPin> = Vec::new();
        let mut k: usize = 0;
        while k < n
            invariant
                valid_vault(bytes@),
                n == record_count(bytes@),
                k <= n,
                pins@.len() == k,
                forall|j: int|
                    0 <= j < k ==> #[trigger] pins@[j].id == slot_at(bytes@, j) && pins@[j].pin
                        == word_at(bytes@, j) && pins@[j].id <= 99,
            decreases n - k,
        {
            let off = 1 + k * 5;
            let id = bytes[off];
            assert(slot_ok(bytes@, k as int));
            let raw_pin = ((bytes[off + 1] as u32) << 24u32) | ((bytes[off + 2] as u32) << 16u32) | ((
            bytes[off + 3] as u32) << 8u32) | (bytes[off + 4] as u32);
            assert(id == slot_at(bytes@, k as int) && id <= 99);
            assert(raw_pin == word_at(bytes@, k as int));
            let ghost before = pins@;
            pins.push(RawPin { id, pin: raw_pin });
            assert forall|j: int| 0 <= j < k + 1 implies #[trigger] pins@[j].id == slot_at(bytes@, j)
                && pins@[j].pin == word_at(bytes@, j) && pins@[j].id <= 99 by {
                if j < k {
                    assert(pins@[j] == before[j]);
                }
            }
            k += 1;
        }
        Self { pins }
    }

    /// Scores candidate `master`: the number of records that decode to an
    /// accepted value, or zero once one decodes above nine digits.
    fn score_candidate(&self, master: u32, heuristic: bool, known: &[u32]) -> (r: u32)
        requires
            self.wf(),
        ensures
            r == score(self.records(), master, heuristic, known@),
    {
        let ghost recs = self.records();
        let len = self.pins.len();
        let mut sc: u32 = 0;
        let mut ok = true;
        let mut k: usize = 0;
        while k < len && ok
            invariant
                self.wf(),
                recs == self.records(),
                len == recs.len(),
                k <= len,
                ok ==> plausible(recs.take(k as int), master),
                ok ==> sc == hits(recs.take(k as int), master, heuristic, known@),
                !ok ==> !plausible(recs, master),
                sc <= k,
            decreases len - k + if ok { 1int } else { 0int },
        {
            let raw_pin = self.pins[k];
            assert(recs[k as int] == (raw_pin.id, raw_pin.pin));
            assert(recs[k as int].0 <= 99);
            let pin = decrypt(master, raw_pin.id, raw_pin.pin);
            proof {
                assert(recs.take(k + 1).drop_last() =~= recs.take(k as int));
                assert(recs.take(k + 1).last() == recs[k as int]);
            }
            if pin > MAX_PLAUSIBLE {
                assert(decode_spec(master, recs[k as int].0, recs[k as int].1) > MAX_PLAUSIBLE);
                ok = false;
                sc = 0;
            } else {
                let hit = if heuristic {
                    pin == 0 || pin == 123_456_789 || pin == 987_654_321
                } else {
                    contains(known, pin)
                };
                if hit {
                    sc += 1;
                }
                proof {
                    assert forall|i: int| 0 <= i < k + 1 implies #[trigger] decode_spec(
                        master,
                        recs.take(k + 1)[i].0,
                        recs.take(k + 1)[i].1,
                    ) <= MAX_PLAUSIBLE by {
                        if i < k {
                            assert(recs.take(k + 1)[i] == recs.take(k as int)[i]);
                        }
                    }
                }
                k += 1;
            }
        }
        proof {
            if ok {
                assert(recs.take(len as int) =~= recs);
            }
        }
        if ok {
            sc
        } else {
            0
        }
    }

    /// Runs worker `start` of a search with step `step`: every candidate
    /// `start, start + step, ...` below `bound_of(max)` is scored, and those
    /// with a positive score come out in increasing order.
    fn search(&self, start: u32, step: u32, max: Option<u32>, heuristic: bool, known: &[u32]) -> (r:
        Vec<SusMaster>)
        requires
            self.wf(),
            step >= 1,
        ensures
            r@ == found(self.records(), heuristic, known@, start as int, step as int, bound_of(max)),
    {
        let ghost recs = self.records();
        let max = match max {
            Some(m) => m,
            None => SPACE_END,
        };
        let mut sus: Vec<SusMaster> = Vec::new();
        let mut master: u64 = start as u64;
        while master < max as u64
            invariant
                self.wf(),
                recs == self.records(),
                step >= 1,
                master <= u32::MAX as u64 + u32::MAX as u64,
                master as int >= start as int,
                sus@ + found(recs, heuristic, known@, master as int, step as int, max as int)
                    == found(recs, heuristic, known@, start as int, step as int, max as int),
            decreases (if master < max as u64 {
                max as int - master as int
            } else {
                0
            }),
        {
            let m = master as u32;
            let sc = self.score_candidate(m, heuristic, known);
            let ghost rest = found(recs, heuristic, known@, master + step, step as int, max as int);
            let ghost before = sus@;
            if sc > 0 {
                sus.push(SusMaster { master: m, score: sc });
                proof {
                    assert(found(recs, heuristic, known@, master as int, step as int, max as int)
                        == seq![SusMaster { master: m, score: sc }] + rest);
                    assert(sus@ + rest =~= before + (seq![SusMaster { master: m, score: sc }] + rest))
                        by {
                        assert(sus@ == before.push(SusMaster { master: m, score: sc }));
                    };
                }
            }
            master = master + step as u64;
        }
        proof {
            assert(sus@ + Seq::<SusMaster>::empty() =~= sus@);
        }
        sus
    }

    /// Heuristic search by worker `start` of `step`: candidates whose
    /// records decode to weak values.
    pub fn part_bruteforce(&self, start: u32, step: u32, max: Option<u32>) -> (r: Vec<SusMaster>)
        requires
            self.wf(),
            step >= 1,
        ensures
            r@ == found(self.records(), true, Seq::empty(), start as int, step as int, bound_of(max)),
    {
        let none: Vec<u32> = Vec::new();
        self.search(start, step, max, true, none.as_slice())
    }

    /// Known-plaintext search by worker `start` of `step`: candidates whose
    /// records decode to values in `known_pins`; refused when there is none.
    pub fn part_find(&self, start: u32, step: u32, max: Option<u32>, known_pins: &[u32]) -> (r:
        Result<Vec<SusMaster>, VaultError>)
        requires
            self.wf(),
            step >= 1,
        ensures
            known_pins@.len() == 0 ==> r == Err::<Vec<SusMaster>, VaultError>(
                VaultError::EmptyKnownSet,
            ),
            known_pins@.len() > 0 ==> (r matches Ok(v) && v@ == found(
                self.records(),
                false,
                known_pins@,
                start as int,
                step as int,
                bound_of(max),
            )),
    {
        if known_pins.len() == 0 {
            return Err(VaultError::EmptyKnownSet);
        }
        Ok(self.search(start, step, max, false, known_pins))
    }
}

/// The outputs of the workers that finished, one after the other; a worker
/// that failed adds nothing.
pub open spec fn merged(parts: Seq<Option<Vec<SusMaster>>>) -> Seq<SusMaster>
    decreases parts.len(),
{
    if parts.len() == 0 {
        Seq::empty()
    } else {
        merged(parts.drop_last()) + match parts.last() {
            Some(v) => v@,
            None => Seq::empty(),
        }
    }
}

/// How many workers failed.
pub open spec fn failed(parts: Seq<Option<Vec<SusMaster>>>) -> nat
    decreases parts.len(),
{
    if parts.len() == 0 {
        0
    } else {
        failed(parts.drop_last()) + if parts.last() is None {
            1nat
        } else {
            0nat
        }
    }
}

/// Joins the outputs of the workers of a search, `None` standing for a
/// worker that failed, into one list of candidates and the number of failed
/// workers.
pub fn merge_parts(parts: &Vec<Option<Vec<SusMaster>>>) -> (r: (Vec<SusMaster>, usize))
    ensures
        r.0@ == merged(parts@),
        r.1 == failed(parts@),
{
    let mut all: Vec<SusMaster> = Vec::new();
    let mut lost: usize = 0;
    let mut i: usize = 0;
    while i < parts.len()
        invariant
            i <= parts@.len(),
            all@ == merged(parts@.take(i as int)),
            lost == failed(parts@.take(i as int)),
            lost <= i,
        decreases parts@.len() - i,
    {
        proof {
            assert(parts@.take(i + 1).drop_last() =~= parts@.take(i as int));
            assert(parts@.take(i + 1).last() == parts@[i as int]);
        }
        match &parts[i] {
            Some(v) => {
                let ghost start = all@;
                let mut j: usize = 0;
                while j < v.len()
                    invariant
                        j <= v@.len(),
                        all@ == start + v@.take(j as int),
                    decreases v@.len() - j,
                {
                    all.push(v[j]);
                    assert(v@.take(j + 1) =~= v@.take(j as int).push(v@[j as int]));
                    assert(all@ =~= start + v@.take(j + 1));
                    j += 1;
                }
                assert(v@.take(v@.len() as int) =~= v@);
            },
            None => {
                assert(merged(parts@.take(i + 1)) =~= merged(parts@.take(i as int)));
                lost += 1;
            },
        }
        i += 1;
    }
    assert(parts@.take(parts@.len() as int) =~= parts@);
    (all, lost)
}

/// A candidate under which one record decodes above nine digits scores zero,
/// whatever the other records decode to.
pub proof fn lemma_implausible_scores_zero(
    recs: Seq<(u8, u32)>,
    master: u32,
    heuristic: bool,
    known: Seq<u32>,
    i: int,
)
    requires
        0 <= i < recs.len(),
        decode_spec(master, recs[i].0, recs[i].1) > MAX_PLAUSIBLE,
    ensures
        score(recs, master, heuristic, known) == 0,
{
}

/// The strides of `t` workers cover the candidate space without overlap:
/// each candidate lies in the stride of worker `c % t` and of no other.
pub proof fn lemma_partition(t: int, c: int)
    requires
        t >= 1,
        0 <= c < SPACE_END,
    ensures
        0 <= c % t < t,
        in_stride(c, c % t, t),
        forall|i: int| 0 <= i < t && #[trigger] in_stride(c, i, t) ==> i == c % t,
{
    lemma_fundamental_div_mod(c, t);
    lemma_mod_pos_bound(c, t);
    assert(c - c % t == (c / t) * t) by (nonlinear_arith)
        requires
            c == t * (c / t) + (c % t),
    ;
    lemma_mod_multiples_basic(c / t, t);
    assert forall|i: int| 0 <= i < t && #[trigger] in_stride(c, i, t) implies i == c % t by {
        lemma_fundamental_div_mod(c - i, t);
        assert(c == ((c - i) / t) * t + i) by (nonlinear_arith)
            requires
                c - i == t * ((c - i) / t) + ((c - i) % t),
                (c - i) % t == 0,
        ;
        lemma_fundamental_div_mod_converse(c, t, (c - i) / t, i);
    }
}

/// However many workers a search uses, a candidate that scores above zero
/// comes out of worker `c % t`, and out of no other.
pub proof fn lemma_search_complete(
    recs: Seq<(u8, u32)>,
    heuristic: bool,
    known: Seq<u32>,
    t: int,
    c: int,
)
    requires
        t >= 1,
        0 <= c < SPACE_END,
        recs.len() <= 255,
    ensures
        score(recs, c as u32, heuristic, known) > 0 ==> found(
            recs,
            heuristic,
            known,
            c % t,
            t,
            SPACE_END as int,
        ).contains(
            SusMaster { master: c as u32, score: score(recs, c as u32, heuristic, known) as u32 },
        ),
        forall|i: int, j: int|
            0 <= i < t && 0 <= j < found(recs, heuristic, known, i, t, SPACE_END as int).len()
                && (#[trigger] found(recs, heuristic, known, i, t, SPACE_END as int)[j]).master
                == c ==> i == c % t,
{
    lemma_partition(t, c);
    lemma_found_members(recs, heuristic, known, c % t, t, SPACE_END as int);
    assert forall|i: int, j: int|
        0 <= i < t && 0 <= j < found(recs, heuristic, known, i, t, SPACE_END as int).len()
            && (#[trigger] found(recs, heuristic, known, i, t, SPACE_END as int)[j]).master
            == c implies i == c % t by {
        lemma_found_members(recs, heuristic, known, i, t, SPACE_END as int);
        assert(in_stride(c, i, t));
    }
}

/// One step along a stride: a candidate past `start` in the stride of
/// `start` lies in the stride of `start + step`, and the converse.
proof fn lemma_stride_step(c: int, start: int, step: int)
    requires
        step >= 1,
    ensures
        c > start && in_stride(c, start, step) ==> in_stride(c, start + step, step),
        in_stride(c, start + step, step) ==> in_stride(c, start, step),
{
    if c > start && in_stride(c, start, step) {
        if c - start < step {
            lemma_fundamental_div_mod_converse(c - start, step, 0, c - start);
        }
        lemma_mod_sub_multiples_vanish(c - start, step);
        assert(-step + (c - start) == c - (start + step));
    }
    if in_stride(c, start + step, step) {
        lemma_mod_add_multiples_vanish(c - (start + step), step);
        assert(step + (c - (start + step)) == c - start);
    }
}

/// The output of the worker that starts at `start` with step `step` holds
/// exactly the candidates of its stride below `bound` that score above zero,
/// each with its score.
pub proof fn lemma_found_members(
    recs: Seq<(u8, u32)>,
    heuristic: bool,
    known: Seq<u32>,
    start: int,
    step: int,
    bound: int,
)
    requires
        step >= 1,
        0 <= start,
        bound <= u32::MAX + 1,
        recs.len() <= 255,
    ensures
        forall|j: int|
            0 <= j < found(recs, heuristic, known, start, step, bound).len() ==> {
                let x = #[trigger] found(recs, heuristic, known, start, step, bound)[j];
                &&& start <= x.master < bound
                &&& in_stride(x.master as int, start, step)
                &&& x.score > 0
                &&& x.score == score(recs, x.master, heuristic, known)
            },
        forall|c: int|
            start <= c < bound && #[trigger] in_stride(c, start, step) && score(
                recs,
                c as u32,
                heuristic,
                known,
            ) > 0 ==> found(recs, heuristic, known, start, step, bound).contains(
                SusMaster { master: c as u32, score: score(recs, c as u32, heuristic, known) as u32 },
            ),
    decreases (if start < bound {
        bound - start
    } else {
        0
    }),
{
    if start < bound {
        let next = start + step;
        lemma_found_members(recs, heuristic, known, next, step, bound);
        lemma_score_bound(recs, start as u32, heuristic, known);
        let rest = found(recs, heuristic, known, next, step, bound);
        let all = found(recs, heuristic, known, start, step, bound);
        let sc = score(recs, start as u32, heuristic, known);
        let head = SusMaster { master: start as u32, score: sc as u32 };
        lemma_fundamental_div_mod_converse(0, step, 0, 0);
        assert(in_stride(start, start, step));
        if sc > 0 {
            assert(all == seq![head] + rest);
        } else {
            assert(all == rest);
        }
        assert forall|j: int| 0 <= j < all.len() implies {
            let x = #[trigger] all[j];
            &&& start <= x.master < bound
            &&& in_stride(x.master as int, start, step)
            &&& x.score > 0
            &&& x.score == score(recs, x.master, heuristic, known)
        } by {
            if sc > 0 && j == 0 {
            } else {
                let jj = if sc > 0 {
                    j - 1
                } else {
                    j
                };
                assert(all[j] == rest[jj]);
                lemma_stride_step(rest[jj].master as int, start, step);
            }
        }
        assert forall|c: int|
            start <= c < bound && #[trigger] in_stride(c, start, step) && score(
                recs,
                c as u32,
                heuristic,
                known,
            ) > 0 implies all.contains(
            SusMaster { master: c as u32, score: score(recs, c as u32, heuristic, known) as u32 },
        ) by {
            if c == start {
                assert(all[0] == head);
            } else {
                lemma_stride_step(c, start, step);
                assert(next <= c) by {
                    if c < next {
                        lemma_fundamental_div_mod_converse(c - start, step, 0, c - start);
                    }
                }
                let x = SusMaster { master: c as u32, score: score(recs, c as u32, heuristic, known) as u32 };
                assert(rest.contains(x));
                let k = choose|k: int| 0 <= k < rest.len() && rest[k] == x;
                if sc > 0 {
                    assert(all[k + 1] == x);
                } else {
                    assert(all[k] == x);
                }
            }
        }
    }
}

/// A score never exceeds the number of records.
proof fn lemma_score_bound(recs: Seq<(u8, u32)>, master: u32, heuristic: bool, known: Seq<u32>)
    ensures
        score(recs, master, heuristic, known) <= recs.len(),
{
    lemma_hits_bound(recs, master, heuristic, known);
}

proof fn lemma_hits_bound(recs: Seq<(u8, u32)>, master: u32, heuristic: bool, known: Seq<u32>)
    ensures
        hits(recs, master, heuristic, known) <= recs.len(),
    decreases recs.len(),
{
    if recs.len() > 0 {
        lemma_hits_bound(recs.drop_last(), master, heuristic, known);
    }
}

/// Whether `v` is one of `values`.
fn contains(values: &[u32], v: u32) -> (r: bool)
    ensures
        r == values@.contains(v),
{
    let mut i: usize = 0;
    while i < values.len()
        invariant
            i <= values@.len(),
            forall|j: int| 0 <= j < i ==> values@[j] != v,
        decreases values@.len() - i,
    {
        if values[i] == v {
            assert(values@[i as int] == v);
            return true;
        }
        i += 1;
    }
    false
}

} // verus!
