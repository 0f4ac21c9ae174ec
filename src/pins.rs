//! Keystream, cipher, and the vault of pins with its byte layout.
use rand::rngs::OsRng;
use rand::Rng;
use vstd::prelude::*;
use vstd::std_specs::iter::IteratorSpec;

verus! {

/// Bits 0 to 29 of a word: the part of a pin that the cipher carries.
pub const LOW_BITS: u32 = 0x3FFF_FFFF;

/// One xorshift step with shifts 13, 17 and 5.
pub open spec fn xorshift_spec(x: u32) -> u32 {
    let a = x ^ (x << 13u32);
    let b = a ^ (a >> 17u32);
    b ^ (b << 5u32)
}

/// The state reached from `seed` after `steps` xorshift steps.
pub open spec fn stream(seed: u32, steps: nat) -> u32
    decreases steps,
{
    if steps == 0 {
        seed
    } else {
        xorshift_spec(stream(seed, (steps - 1) as nat))
    }
}

/// The keystream word of slot `id` under `master`.
pub open spec fn keystream(master: u32, id: u8) -> u32 {
    stream(master, id as nat + 1)
}

/// Bits 30 and 31 of `pin` replaced by the two bits of `nonce`.
pub open spec fn mask_in_spec(pin: u32, nonce: u32) -> u32 {
    (pin & LOW_BITS) | (nonce << 30u32)
}

/// Bits 30 and 31 of `word` cleared.
pub open spec fn mask_out_spec(word: u32) -> u32 {
    word & LOW_BITS
}

/// The ciphertext of `pin` in slot `id` under `master`, masked with `nonce`.
pub open spec fn encode_spec(master: u32, id: u8, pin: u32, nonce: u32) -> u32 {
    keystream(master, id) ^ mask_in_spec(pin, nonce)
}

/// The plaintext that `word` in slot `id` decodes to under `master`.
pub open spec fn decode_spec(master: u32, id: u8, word: u32) -> u32 {
    mask_out_spec(keystream(master, id) ^ word)
}

/// One step of the keystream generator.
pub fn xorshift32(state: u32) -> (r: u32)
    ensures
        r == xorshift_spec(state),
{
    let mut x = state;
    x ^= x << 13u32;
    x ^= x >> 17u32;
    x ^= x << 5u32;
    x
}

/// Advances the keystream generator `shift` steps from `state`.
pub fn n_shift(state: u32, shift: u8) -> (r: u32)
    ensures
        r == stream(state, shift as nat),
{
    let mut x = state;
    let mut i: u8 = 0;
    while i < shift
        invariant
            i <= shift,
            x == stream(state, i as nat),
        decreases shift - i,
    {
        x = xorshift32(x);
        i += 1;
    }
    x
}

/// Relies on rand's `Rng::gen_range` over `OsRng`: a value drawn from the
/// inclusive range 0..=3 lies in that range.
#[verifier::external_body]
fn random_nonce() -> (r: u32)
    ensures
        r <= 3,
{
    OsRng.gen_range(0u32..=3u32)
}

/// Sets bits 30 and 31 of `pin` to the two bits of `nonce`.
pub fn encapsulate_with(pin: u32, nonce: u32) -> (r: u32)
    requires
        nonce <= 3,
    ensures
        r == mask_in_spec(pin, nonce),
        r & LOW_BITS == pin & LOW_BITS,
        r >> 30u32 == nonce,
{
    assert((((pin & LOW_BITS) | (nonce << 30u32)) & LOW_BITS) == pin & LOW_BITS
        && ((pin & LOW_BITS) | (nonce << 30u32)) >> 30u32 == nonce) by (bit_vector)
        requires
            nonce <= 3,
    ;
    (pin & LOW_BITS) | (nonce << 30u32)
}

/// Sets bits 30 and 31 of `pin` to fresh random bits.
pub fn encapsulate(pin: u32) -> (r: u32)
    ensures
        r == mask_in_spec(pin, r >> 30u32),
        r & LOW_BITS == pin & LOW_BITS,
{
    let nonce = random_nonce();
    encapsulate_with(pin, nonce)
}

/// Clears bits 30 and 31 of `pin`.
pub fn decapsulate(pin: u32) -> (r: u32)
    ensures
        r == mask_out_spec(pin),
        r <= LOW_BITS,
{
    assert(pin & LOW_BITS <= LOW_BITS) by (bit_vector);
    pin & LOW_BITS
}

/// Encrypts `pin` for slot `id` under `master`, with random mask bits.
pub fn encrypt(master: u32, id: u8, pin: u32) -> (r: u32)
    requires
        id <= 99,
    ensures
        exists|nonce: u32| nonce <= 3 && r == encode_spec(master, id, pin, nonce),
        decode_spec(master, id, r) == pin & LOW_BITS,
{
    let pin_masked = encapsulate(pin);
    let r = n_shift(master, id + 1) ^ pin_masked;
    proof {
        let nonce = pin_masked >> 30u32;
        assert(pin_masked >> 30u32 <= 3) by (bit_vector);
        assert(r == encode_spec(master, id, pin, nonce));
        lemma_round_trip_bits(keystream(master, id), pin, nonce);
    }
    r
}

/// Decrypts the ciphertext `pin` of slot `id` under `master`.
pub fn decrypt(master: u32, id: u8, pin: u32) -> (r: u32)
    requires
        id <= 99,
    ensures
        r == decode_spec(master, id, pin),
        r <= LOW_BITS,
{
    let word = n_shift(master, id + 1) ^ pin;
    decapsulate(word)
}

proof fn lemma_round_trip_bits(k: u32, pin: u32, nonce: u32)
    requires
        nonce <= 3,
    ensures
        mask_out_spec(k ^ (k ^ mask_in_spec(pin, nonce))) == pin & LOW_BITS,
{
    assert(((k ^ (k ^ ((pin & 0x3FFF_FFFFu32) | (nonce << 30u32)))) & 0x3FFF_FFFFu32)
        == pin & 0x3FFF_FFFFu32) by (bit_vector);
}

/// Decoding undoes encoding: a pin below 2^30 comes back unchanged, whatever
/// the mask bits were.
pub proof fn lemma_round_trip(master: u32, id: u8, pin: u32, nonce: u32)
    requires
        id <= 99,
        pin < 0x4000_0000,
        nonce <= 3,
    ensures
        decode_spec(master, id, encode_spec(master, id, pin, nonce)) == pin,
{
    lemma_round_trip_bits(keystream(master, id), pin, nonce);
    assert(pin < 0x4000_0000 ==> pin & 0x3FFF_FFFFu32 == pin) by (bit_vector);
}

/// Two encodings of one pin differ only in the top two bits, by the
/// difference of their masks, and decode to the same value.
pub proof fn lemma_encodings_differ_by_mask(master: u32, id: u8, pin: u32, n1: u32, n2: u32)
    requires
        n1 <= 3,
        n2 <= 3,
    ensures
        encode_spec(master, id, pin, n1) ^ encode_spec(master, id, pin, n2) == (n1 ^ n2) << 30u32,
        decode_spec(master, id, encode_spec(master, id, pin, n1)) == decode_spec(
            master,
            id,
            encode_spec(master, id, pin, n2),
        ),
        (encode_spec(master, id, pin, n1) == encode_spec(master, id, pin, n2)) == (n1 == n2),
{
    let k = keystream(master, id);
    lemma_round_trip_bits(k, pin, n1);
    lemma_round_trip_bits(k, pin, n2);
    assert((k ^ ((pin & 0x3FFF_FFFFu32) | (n1 << 30u32))) ^ (k ^ ((pin & 0x3FFF_FFFFu32) | (n2
        << 30u32))) == (n1 ^ n2) << 30u32) by (bit_vector)
        requires
            n1 <= 3,
            n2 <= 3,
    ;
    assert(((k ^ ((pin & 0x3FFF_FFFFu32) | (n1 << 30u32))) == (k ^ ((pin & 0x3FFF_FFFFu32) | (n2
        << 30u32)))) == (n1 == n2)) by (bit_vector)
        requires
            n1 <= 3,
            n2 <= 3,
    ;
}

/// Zero keystream steps leave the seed unchanged.
pub proof fn lemma_stream_zero_steps(seed: u32)
    ensures
        stream(seed, 0) == seed,
{
}

/// Why a byte buffer is not a vault, or why a search cannot start.
#[derive(Debug, Clone, Copy, PartialEq, Eq, Structural)]
pub enum VaultError {
    /// The buffer holds no byte at all.
    EmptyInput,
    /// The buffer is shorter than its record count asks for.
    TruncatedInput,
    /// A record names a slot above 99.
    InvalidSlot,
    /// Two records name the same slot.
    DuplicateSlot,
    /// A known-plaintext search was asked for with no plaintext.
    EmptyKnownSet,
}

/// The record count that a vault buffer declares in its first byte.
pub open spec fn record_count(b: Seq<u8>) -> nat {
    b[0] as nat
}

/// The slot byte of record `i`.
pub open spec fn slot_at(b: Seq<u8>, i: int) -> u8 {
    b[1 + 5 * i]
}

/// The 32-bit big-endian word made of four bytes.
pub open spec fn be_word(b0: u8, b1: u8, b2: u8, b3: u8) -> u32 {
    ((b0 as u32) << 24u32) | ((b1 as u32) << 16u32) | ((b2 as u32) << 8u32) | (b3 as u32)
}

/// The ciphertext word of record `i`.
pub open spec fn word_at(b: Seq<u8>, i: int) -> u32 {
    be_word(b[2 + 5 * i], b[3 + 5 * i], b[4 + 5 * i], b[5 + 5 * i])
}

/// The buffer is not empty and holds all the records that it declares.
pub open spec fn sized(b: Seq<u8>) -> bool {
    b.len() >= 1 && b.len() - 1 >= 5 * record_count(b)
}

/// Record `i` names a slot in range that no earlier record names.
pub open spec fn slot_ok(b: Seq<u8>, i: int) -> bool {
    &&& slot_at(b, i) <= 99
    &&& forall|j: int| 0 <= j < i ==> slot_at(b, j) != slot_at(b, i)
}

/// The buffer is a well-formed vault.
pub open spec fn valid_vault(b: Seq<u8>) -> bool {
    &&& sized(b)
    &&& forall|i: int| 0 <= i < record_count(b) ==> #[trigger] slot_ok(b, i)
}

/// Record `k` is the first record whose slot is out of range or repeated.
pub open spec fn first_bad(b: Seq<u8>, k: int) -> bool {
    &&& 0 <= k < record_count(b)
    &&& !slot_ok(b, k)
    &&& forall|i: int| 0 <= i < k ==> #[trigger] slot_ok(b, i)
}

/// What `verify` decides about a buffer.
pub open spec fn verify_result(b: Seq<u8>) -> Result<(), VaultError> {
    if b.len() == 0 {
        Err(VaultError::EmptyInput)
    } else if !sized(b) {
        Err(VaultError::TruncatedInput)
    } else if valid_vault(b) {
        Ok(())
    } else if exists|k: int| first_bad(b, k) && slot_at(b, k) > 99 {
        Err(VaultError::InvalidSlot)
    } else {
        Err(VaultError::DuplicateSlot)
    }
}

/// A pin in its slot, in plaintext.
#[derive(Debug, Clone, Copy, PartialEq, Eq, Structural)]
pub struct Pin {
    pub id: u8,
    pub pin: u32,
}

impl Pin {
    pub fn new(id: u8, pin: u32) -> (r: Self)
        ensures
            r.id == id,
            r.pin == pin,
    {
        Self { id, pin }
    }
}

/// Record `k` of the buffer, decrypted under `master`.
pub open spec fn decoded_at(b: Seq<u8>, master: u32, k: int) -> Pin {
    Pin { id: slot_at(b, k), pin: decode_spec(master, slot_at(b, k), word_at(b, k)) }
}

/// `p` is one of the records of the buffer, decrypted under `master`.
pub open spec fn in_file(b: Seq<u8>, master: u32, p: Pin) -> bool {
    exists|k: int| 0 <= k < record_count(b) && p == decoded_at(b, master, k)
}

/// Slot ids rise strictly along the sequence.
pub open spec fn ids_increasing(s: Seq<Pin>) -> bool {
    forall|i: int, j: int| 0 <= i < j < s.len() ==> s[i].id < s[j].id
}

/// The largest slot among the first `k` records, 0 when `k` is 0.
pub open spec fn max_slot(b: Seq<u8>, k: nat) -> u8
    decreases k,
{
    if k == 0 {
        0
    } else {
        let m = max_slot(b, (k - 1) as nat);
        let s = slot_at(b, k - 1);
        if s > m {
            s
        } else {
            m
        }
    }
}

/// The records of `s` whose pin is not zero, in order.
pub open spec fn nonzero(s: Seq<Pin>) -> Seq<Pin>
    decreases s.len(),
{
    if s.len() == 0 {
        Seq::empty()
    } else {
        let rest = nonzero(s.drop_last());
        if s.last().pin != 0 {
            rest.push(s.last())
        } else {
            rest
        }
    }
}

/// The first records of `out` are those of `kept`, each encrypted under
/// `master` with some mask bits.
pub open spec fn written(master: u32, kept: Seq<Pin>, out: Seq<u8>) -> bool {
    forall|j: int|
        0 <= j < kept.len() ==> {
            &&& #[trigger] slot_at(out, j) == kept[j].id
            &&& exists|nonce: u32|
                nonce <= 3 && word_at(out, j) == encode_spec(master, kept[j].id, kept[j].pin, nonce)
        }
}

/// `out` is a vault buffer holding exactly the nonzero records of `recs`,
/// each encrypted under `master` with some mask bits.
pub open spec fn saves_to(master: u32, recs: Seq<Pin>, out: Seq<u8>) -> bool {
    let kept = nonzero(recs);
    &&& out.len() == 1 + 5 * kept.len()
    &&& record_count(out) == kept.len()
    &&& written(master, kept, out)
}

/// The pins of one vault, in plaintext, under their master key.
pub struct Pins {
    master: u32,
    pins: Vec<Pin>,
    max_id: u8,
}

impl Pins {
    /// The records, in slot order.
    pub closed spec fn records(&self) -> Seq<Pin> {
        self.pins@
    }

    /// The master key that the records are saved under.
    pub closed spec fn master_key(&self) -> u32 {
        self.master
    }

    /// The highest slot handed out so far; `add` uses the next one.
    pub closed spec fn top_id(&self) -> u8 {
        self.max_id
    }

    /// Slots rise strictly and none exceeds `top_id`, which is at most 99.
    pub open spec fn wf(&self) -> bool {
        &&& self.top_id() <= 99
        &&& ids_increasing(self.records())
        &&& forall|i: int| 0 <= i < self.records().len() ==> #[trigger] self.records()[i].id <= self.top_id()
    }

    /// Checks that `bytes` is a well-formed vault: not empty, long enough for
/// its declared record count, with slots in range and distinct.
pub fn verify(bytes: &[u8]) -> (r: Result<(), VaultError>)
    ensures
        r == verify_result(bytes@),
{
    let b = Ghost(bytes@);
    if bytes.len() == 0 {
        return Err(VaultError::EmptyInput);
    }
    let n = bytes[0] as usize;
    if bytes.len() - 1 < n * 5 {
        return Err(VaultError::TruncatedInput);
    }
    let mut seen: Vec<bool> = Vec::new();
    while seen.len() < 100
        invariant
            seen@.len() <= 100,
            forall|x: int| 0 <= x < seen@.len() ==> !seen@[x],
        decreases 100 - seen@.len(),
    {
        seen.push(false);
    }
    let mut i: usize = 0;
    while i < n
        invariant
            b@ == bytes@,
            n == record_count(b@),
            sized(b@),
            i <= n,
            seen@.len() == 100,
            forall|x: int|
                0 <= x < 100 ==> (#[trigger] seen@[x] <==> exists|j: int|
                    0 <= j < i && slot_at(b@, j) == x),
            forall|j: int| 0 <= j < i ==> #[trigger] slot_ok(b@, j),
        decreases n - i,
    {
        let id = bytes[1 + i * 5];
        if id > 99 {
            assert(first_bad(b@, i as int));
            proof {
                lemma_first_bad_unique(b@, i as int);
            }
            return Err(VaultError::InvalidSlot);
        }
        if seen[id as usize] {
            assert(first_bad(b@, i as int));
            proof {
                lemma_first_bad_unique(b@, i as int);
            }
            return Err(VaultError::DuplicateSlot);
        }
        seen.set(id as usize, true);
        assert(slot_ok(b@, i as int));
        i += 1;
    }
    Ok(())
}

/// Reads the vault in `bytes` and decrypts each record under `master`;
    /// the records come out in slot order.
    pub fn load(bytes: &[u8], master: u32) -> (r: Self)
        requires
            valid_vault(bytes@),
        ensures
            r.wf(),
            r.master_key() == master,
            r.top_id() == max_slot(bytes@, record_count(bytes@)),
            ids_increasing(r.records()),
            forall|i: int|
                0 <= i < r.records().len() ==> in_file(bytes@, master, #[trigger] r.records()[i]),
            forall|k: int|
                0 <= k < record_count(bytes@) ==> r.records().contains(
                    #[trigger] decoded_at(bytes@, master, k),
                ),
    {
        let b = Ghost(bytes@);
        let n = bytes[0] as usize;
        let mut raw: Vec<Pin> = Vec::new();
        let mut max_id: u8 = 0;
        let mut k: usize = 0;
        while k < n
            invariant
                b@ == bytes@,
                valid_vault(b@),
                n == record_count(b@),
                k <= n,
                raw@.len() == k,
                max_id == max_slot(b@, k as nat),
                max_id <= 99,
                forall|j: int| 0 <= j < k ==> #[trigger] raw@[j] == decoded_at(b@, master, j),
            decreases n - k,
        {
            let off = 1 + k * 5;
            let id = bytes[off];
            assert(slot_ok(b@, k as int));
            if id > max_id {
                max_id = id;
            }
            let word = ((bytes[off + 1] as u32) << 24u32) | ((bytes[off + 2] as u32) << 16u32) | ((
            bytes[off + 3] as u32) << 8u32) | (bytes[off + 4] as u32);
            let pin = decrypt(master, id, word);
            raw.push(Pin::new(id, pin));
            k += 1;
        }
        let mut pins: Vec<Pin> = Vec::new();
        let mut slot: u8 = 0;
        while slot < 100
            invariant
                b@ == bytes@,
                valid_vault(b@),
                n == record_count(b@),
                raw@.len() == n,
                forall|j: int| 0 <= j < n ==> #[trigger] raw@[j] == decoded_at(b@, master, j),
                slot <= 100,
                ids_increasing(pins@),
                forall|i: int| 0 <= i < pins@.len() ==> #[trigger] pins@[i].id < slot,
                forall|i: int| 0 <= i < pins@.len() ==> in_file(b@, master, #[trigger] pins@[i]),
                forall|j: int|
                    0 <= j < n && slot_at(b@, j) < slot ==> pins@.contains(
                        #[trigger] decoded_at(b@, master, j),
                    ),
            decreases 100 - slot,
        {
            let mut found: usize = n;
            let mut j: usize = 0;
            while j < n
                invariant
                    b@ == bytes@,
                    n == record_count(b@),
                    raw@.len() == n,
                    forall|x: int| 0 <= x < n ==> #[trigger] raw@[x] == decoded_at(b@, master, x),
                    j <= n,
                    found == n || found < j,
                    found == n ==> forall|x: int| 0 <= x < j ==> #[trigger] slot_at(b@, x) != slot,
                    found < n ==> slot_at(b@, found as int) == slot,
                decreases n - j,
            {
                if found == n && raw[j].id == slot {
                    found = j;
                }
                j += 1;
            }
            let j = found;
            let ghost old_pins = pins@;
            if j < n {
                let p = raw[j];
                assert(raw@[j as int] == decoded_at(b@, master, j as int));
                assert(slot_at(b@, j as int) == slot);
                pins.push(p);
                assert(pins@[old_pins.len() as int] == decoded_at(b@, master, j as int));
                assert forall|x: int|
                    0 <= x < n && slot_at(b@, x) < slot + 1 implies pins@.contains(
                        #[trigger] decoded_at(b@, master, x),
                    ) by {
                    if slot_at(b@, x) == slot {
                        lemma_same_slot(b@, x, j as int);
                        assert(pins@[old_pins.len() as int] == decoded_at(b@, master, x));
                    } else {
                        assert(old_pins.contains(decoded_at(b@, master, x)));
                        let i = choose|i: int|
                            0 <= i < old_pins.len() && old_pins[i] == decoded_at(b@, master, x);
                        assert(pins@[i] == decoded_at(b@, master, x));
                    }
                }
                assert forall|i: int| 0 <= i < pins@.len() implies in_file(
                    b@,
                    master,
                    #[trigger] pins@[i],
                ) by {
                    if i < old_pins.len() {
                        assert(old_pins[i] == pins@[i]);
                    } else {
                        assert(pins@[i] == decoded_at(b@, master, j as int));
                    }
                }
            }
            slot += 1;
        }
        proof {
            assert forall|x: int| 0 <= x < n implies #[trigger] slot_at(b@, x) < 100 by {
                assert(slot_ok(b@, x));
            }
            assert forall|i: int| 0 <= i < pins@.len() implies #[trigger] pins@[i].id <= max_id by {
                assert(in_file(b@, master, pins@[i]));
                let x = choose|x: int| 0 <= x < n && pins@[i] == decoded_at(b@, master, x);
                lemma_max_slot(b@, n as nat, x);
            }
        }
        Self { master, pins, max_id }
    }

    /// Encrypts the records whose pin is not zero under the master key,
    /// with fresh mask bits, and lays them out as a vault buffer.
    pub fn save(&self) -> (out: Vec<u8>)
        requires
            self.wf(),
        ensures
            saves_to(self.master_key(), self.records(), out@),
            valid_vault(out@),
    {
        let ghost recs = self.pins@;
        let ghost master = self.master;
        proof {
            lemma_len_bound(recs);
        }
        let len = self.pins.len();
        let mut cnt: u8 = 0;
        let mut i: usize = 0;
        while i < len
            invariant
                len == recs.len(),
                recs == self.pins@,
                len <= 100,
                i <= len,
                cnt == nonzero(recs.take(i as int)).len(),
                cnt <= i,
            decreases len - i,
        {
            proof {
                assert(recs.take(i + 1).drop_last() =~= recs.take(i as int));
            }
            if self.pins[i].pin != 0 {
                cnt += 1;
            }
            i += 1;
        }
        assert(recs.take(len as int) =~= recs);
        let mut out: Vec<u8> = Vec::new();
        out.push(cnt);
        i = 0;
        while i < len
            invariant
                self.wf(),
                len == recs.len(),
                recs == self.pins@,
                master == self.master,
                len <= 100,
                i <= len,
                cnt == nonzero(recs).len(),
                out@.len() == 1 + 5 * nonzero(recs.take(i as int)).len(),
                out@[0] == cnt,
                written(master, nonzero(recs.take(i as int)), out@),
            decreases len - i,
        {
            let ghost before = nonzero(recs.take(i as int));
            let ghost old_out = out@;
            proof {
                assert(recs.take(i + 1).drop_last() =~= recs.take(i as int));
                lemma_nonzero(recs.take(i as int));
            }
            let p = self.pins[i];
            if p.pin != 0 {
                assert(p.id <= 99) by {
                    assert(recs[i as int].id <= self.top_id());
                }
                out.push(p.id);
                let w = encrypt(self.master, p.id, p.pin);
                out.push(#[verifier::truncate] ((w >> 24u32) as u8));
                out.push(#[verifier::truncate] ((w >> 16u32) as u8));
                out.push(#[verifier::truncate] ((w >> 8u32) as u8));
                out.push(#[verifier::truncate] (w as u8));
                proof {
                    assert(nonzero(recs.take(i + 1)) == before.push(p));
                    assert(out@ =~= old_out + seq![
                        p.id,
                        (w >> 24u32) as u8,
                        (w >> 16u32) as u8,
                        (w >> 8u32) as u8,
                        w as u8,
                    ]);
                    lemma_written_push(master, before, old_out, out@, p, w);
                }
            } else {
                assert(nonzero(recs.take(i + 1)) == before);
            }
            i += 1;
        }
        proof {
            let kept = nonzero(recs);
            lemma_nonzero(recs);
            assert forall|x: int| 0 <= x < record_count(out@) implies #[trigger] slot_ok(out@, x) by {
                assert(recs.contains(kept[x]));
                let y = choose|y: int| 0 <= y < recs.len() && recs[y] == kept[x];
                assert(recs[y] == self.records()[y]);
                assert(self.records()[y].id <= self.top_id());
                assert(slot_at(out@, x) == kept[x].id);
                assert forall|j: int| 0 <= j < x implies slot_at(out@, j) != slot_at(out@, x) by {
                    assert(slot_at(out@, j) == kept[j].id);
                }
            }
        }
        out
    }

    /// The number of records.
    pub fn len(&self) -> (r: usize)
        ensures
            r == self.records().len(),
    {
        self.pins.len()
    }

    /// Whether there is no record.
    pub fn is_empty(&self) -> (r: bool)
        ensures
            r == (self.records().len() == 0),
    {
        self.len() == 0
    }

    /// The record at `index`.
    pub fn get(&self, index: usize) -> (r: Pin)
        requires
            index < self.records().len(),
        ensures
            r == self.records()[index as int],
    {
        self.pins[index]
    }

    /// Replaces the pin of the record at `index`, keeping its slot.
    pub fn set(&mut self, index: usize, value: u32)
        requires
            old(self).wf(),
            index < old(self).records().len(),
        ensures
            final(self).wf(),
            final(self).records() == old(self).records().update(
                index as int,
                Pin { id: old(self).records()[index as int].id, pin: value },
            ),
            final(self).master_key() == old(self).master_key(),
            final(self).top_id() == old(self).top_id(),
    {
        let id = self.pins[index].id;
        self.pins.set(index, Pin::new(id, value));
    }

    /// Removes the record at `index`.
    pub fn remove(&mut self, index: usize)
        requires
            old(self).wf(),
            index < old(self).records().len(),
        ensures
            final(self).wf(),
            final(self).records() == old(self).records().remove(index as int),
            final(self).master_key() == old(self).master_key(),
            final(self).top_id() == old(self).top_id(),
    {
        self.pins.remove(index);
    }

    /// Appends a record holding `pin` in the slot after the highest one
    /// handed out (slot `top_id` itself when there is no record); refuses
    /// once slot 99 has been handed out.
    pub fn add(&mut self, pin: u32) -> (r: bool)
        requires
            old(self).wf(),
        ensures
            final(self).wf(),
            r == (old(self).top_id() < 99),
            final(self).master_key() == old(self).master_key(),
            r ==> final(self).top_id() == (if old(self).records().len() == 0 {
                old(self).top_id() as int
            } else {
                old(self).top_id() + 1
            }),
            r ==> final(self).records() == old(self).records().push(
                Pin { id: final(self).top_id(), pin },
            ),
            !r ==> final(self).records() == old(self).records() && final(self).top_id() == old(
                self,
            ).top_id(),
    {
        if self.max_id >= 99 {
            return false;
        }
        if self.pins.len() != 0 {
            self.max_id += 1;
        }
        let p = Pin::new(self.max_id, pin);
        self.pins.push(p);
        true
    }

    /// An iterator over the records, in slot order.
    pub fn iter(&self) -> (r: std::slice::Iter<'_, Pin>)
        ensures
            r.remaining() == self.records().as_ref(),
    {
        self.pins.as_slice().iter()
    }
}

proof fn lemma_same_slot(b: Seq<u8>, x: int, y: int)
    requires
        valid_vault(b),
        0 <= x < record_count(b),
        0 <= y < record_count(b),
        slot_at(b, x) == slot_at(b, y),
    ensures
        x == y,
{
    if x < y {
        assert(slot_ok(b, y));
    } else if y < x {
        assert(slot_ok(b, x));
    }
}

impl Default for Pins {
    fn default() -> (r: Self)
        ensures
            r.wf(),
            r.records() == Seq::<Pin>::empty(),
            r.master_key() == 0,
            r.top_id() == 0,
    {
        Self { master: 0, pins: Vec::new(), max_id: 0 }
    }
}

/// A record whose pin is zero leaves no trace in a saved buffer: no record of
/// the buffer names its slot.
pub proof fn lemma_zero_pin_not_saved(master: u32, recs: Seq<Pin>, i: int, out: Seq<u8>)
    requires
        ids_increasing(recs),
        0 <= i < recs.len(),
        recs[i].pin == 0,
        saves_to(master, recs, out),
    ensures
        forall|j: int| 0 <= j < record_count(out) ==> #[trigger] slot_at(out, j) != recs[i].id,
{
    let kept = nonzero(recs);
    lemma_nonzero(recs);
    assert forall|j: int| 0 <= j < record_count(out) implies #[trigger] slot_at(out, j)
        != recs[i].id by {
        assert(slot_at(out, j) == kept[j].id);
        assert(recs.contains(kept[j]));
        let y = choose|y: int| 0 <= y < recs.len() && recs[y] == kept[j];
        if y < i || i < y {
            assert(recs[y].id != recs[i].id);
        }
    }
}

/// Nor does it come back when the saved buffer is loaded again: no record
/// read from that buffer, under any key, names its slot.
pub proof fn lemma_zero_pin_not_reloaded(
    master: u32,
    recs: Seq<Pin>,
    i: int,
    out: Seq<u8>,
    key: u32,
    loaded: Seq<Pin>,
)
    requires
        ids_increasing(recs),
        0 <= i < recs.len(),
        recs[i].pin == 0,
        saves_to(master, recs, out),
        forall|k: int| 0 <= k < loaded.len() ==> in_file(out, key, #[trigger] loaded[k]),
    ensures
        forall|k: int| 0 <= k < loaded.len() ==> #[trigger] loaded[k].id != recs[i].id,
{
    lemma_zero_pin_not_saved(master, recs, i, out);
    assert forall|k: int| 0 <= k < loaded.len() implies #[trigger] loaded[k].id != recs[i].id by {
        assert(in_file(out, key, loaded[k]));
        let x = choose|x: int| 0 <= x < record_count(out) && loaded[k] == decoded_at(out, key, x);
        assert(slot_at(out, x) != recs[i].id);
    }
}

proof fn lemma_written_push(
    master: u32,
    before: Seq<Pin>,
    old_out: Seq<u8>,
    out: Seq<u8>,
    p: Pin,
    w: u32,
)
    requires
        written(master, before, old_out),
        old_out.len() == 1 + 5 * before.len(),
        out == old_out + seq![
            p.id,
            (w >> 24u32) as u8,
            (w >> 16u32) as u8,
            (w >> 8u32) as u8,
            w as u8,
        ],
        exists|nonce: u32| nonce <= 3 && w == encode_spec(master, p.id, p.pin, nonce),
    ensures
        written(master, before.push(p), out),
{
    let after = before.push(p);
    let k = before.len() as int;
    lemma_be_word(w);
    assert(slot_at(out, k) == p.id);
    assert(word_at(out, k) == w);
    let nonce = choose|nonce: u32| nonce <= 3 && w == encode_spec(master, p.id, p.pin, nonce);
    assert(word_at(out, k) == encode_spec(master, after[k].id, after[k].pin, nonce));
    assert forall|j: int| 0 <= j < after.len() implies {
        &&& #[trigger] slot_at(out, j) == after[j].id
        &&& exists|nonce: u32|
            nonce <= 3 && word_at(out, j) == encode_spec(master, after[j].id, after[j].pin, nonce)
    } by {
        if j < k {
            assert(slot_at(out, j) == slot_at(old_out, j));
            assert(word_at(out, j) == word_at(old_out, j));
            assert(after[j] == before[j]);
        }
    }
}

proof fn lemma_len_bound(s: Seq<Pin>)
    requires
        ids_increasing(s),
        forall|i: int| 0 <= i < s.len() ==> #[trigger] s[i].id <= 99,
    ensures
        s.len() <= 100,
{
    assert forall|i: int| 0 <= i < s.len() implies #[trigger] s[i].id >= i by {
        lemma_id_at_least_index(s, i);
    }
    if s.len() > 100 {
        assert(s[100].id >= 100);
    }
}

proof fn lemma_id_at_least_index(s: Seq<Pin>, i: int)
    requires
        ids_increasing(s),
        0 <= i < s.len(),
    ensures
        s[i].id >= i,
    decreases i,
{
    if i > 0 {
        lemma_id_at_least_index(s, i - 1);
    }
}

/// The records kept by `nonzero` come from `s`, have a nonzero pin, and keep
/// the order of slots.
proof fn lemma_nonzero(s: Seq<Pin>)
    ensures
        nonzero(s).len() <= s.len(),
        forall|k: int|
            #![trigger nonzero(s)[k]]
            0 <= k < nonzero(s).len() ==> nonzero(s)[k].pin != 0 && s.contains(nonzero(s)[k]),
        ids_increasing(s) ==> ids_increasing(nonzero(s)),
    decreases s.len(),
{
    if s.len() > 0 {
        let rest = s.drop_last();
        let last = s[s.len() - 1];
        lemma_nonzero(rest);
        assert forall|k: int|
            #![trigger nonzero(s)[k]]
            0 <= k < nonzero(s).len() implies nonzero(s)[k].pin != 0 && s.contains(
                nonzero(s)[k],
            ) by {
            if k < nonzero(rest).len() {
                assert(nonzero(s)[k] == nonzero(rest)[k]);
                assert(rest.contains(nonzero(rest)[k]));
                let i = choose|i: int| 0 <= i < rest.len() && rest[i] == nonzero(rest)[k];
                assert(s[i] == nonzero(s)[k]);
            } else {
                assert(s[s.len() - 1] == nonzero(s)[k]);
            }
        }
        if ids_increasing(s) {
            assert(ids_increasing(rest));
            assert forall|a: int, c: int| 0 <= a < c < nonzero(s).len() implies nonzero(s)[a].id
                < nonzero(s)[c].id by {
                if c >= nonzero(rest).len() {
                    assert(nonzero(s)[a] == nonzero(rest)[a]);
                    assert(rest.contains(nonzero(rest)[a]));
                    let i = choose|i: int| 0 <= i < rest.len() && rest[i] == nonzero(rest)[a];
                    assert(s[i] == rest[i]);
                    assert(nonzero(s)[c] == last);
                } else {
                    assert(nonzero(s)[a] == nonzero(rest)[a]);
                    assert(nonzero(s)[c] == nonzero(rest)[c]);
                }
            }
        }
    }
}

proof fn lemma_be_word(w: u32)
    ensures
        be_word((w >> 24u32) as u8, (w >> 16u32) as u8, (w >> 8u32) as u8, w as u8) == w,
{
    assert(((((w >> 24u32) as u8) as u32) << 24u32) | ((((w >> 16u32) as u8) as u32) << 16u32) | ((
    ((w >> 8u32) as u8) as u32) << 8u32) | ((w as u8) as u32) == w) by (bit_vector);
}

proof fn lemma_max_slot(b: Seq<u8>, k: nat, x: int)
    requires
        0 <= x < k,
    ensures
        slot_at(b, x) <= max_slot(b, k),
    decreases k,
{
    if x < k - 1 {
        lemma_max_slot(b, (k - 1) as nat, x);
    }
}

proof fn lemma_first_bad_unique(b: Seq<u8>, k: int)
    requires
        first_bad(b, k),
    ensures
        !valid_vault(b),
        forall|k2: int| #[trigger] first_bad(b, k2) ==> k2 == k,
{
    assert forall|k2: int| #[trigger] first_bad(b, k2) implies k2 == k by {
        if k2 < k {
            assert(slot_ok(b, k2));
        } else if k < k2 {
            assert(slot_ok(b, k));
        }
    }
}

} // verus!
