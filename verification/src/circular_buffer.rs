//! A fixed-capacity ring of bytes holding delimiter-terminated records.
//!
//! The byte at `start` is always a delimiter sitting just before the oldest
//! live record (or `start == end` and nothing is live); the byte at `end` is
//! the delimiter that terminated the newest record. Appending writes the
//! record's bytes and one delimiter behind `end`, and whenever the write
//! cursor catches `start`, the oldest record is evicted by advancing `start`
//! to the next delimiter.
use vstd::arithmetic::div_mod::{
    lemma_add_mod_noop, lemma_fundamental_div_mod, lemma_fundamental_div_mod_converse,
    lemma_mod_bound, lemma_mod_self_0, lemma_small_mod,
};
use vstd::prelude::*;
use vstd::utf8::{decode_utf8, valid_utf8};

use crate::records::{
    append_model, enc_len, encode, encode_rec, lemma_append_model_at, lemma_enc_len_take_le,
    lemma_enc_len_take_succ, lemma_encode_at, lemma_encode_push, lemma_encode_split, rec_ok,
    recs_ok,
};

verus! {

/// What can go wrong: an append of a record that could never fit, or a
/// replay of stored bytes that are not valid text.
#[derive(Clone, Copy, Debug, PartialEq, Eq, Structural)]
pub enum BufferError {
    ContractViolation,
    DecodeFailure,
}

/// The ring position an offset `o` ahead of `base` lands on.
spec fn wrap(base: int, o: int, n: int) -> int {
    (base + o) % n
}

/// Adding within the divisor on the left of a reduced term keeps the residue.
proof fn lemma_mod_add_left(x: int, y: int, n: int)
    requires
        n > 0,
        0 <= y < n,
    ensures
        ((x % n) + y) % n == (x + y) % n,
{
    lemma_add_mod_noop(x, y, n);
    lemma_small_mod(y as nat, n as nat);
}

/// Stepping one full turn does not change the position.
proof fn lemma_mod_add_n(x: int, n: int)
    requires
        n > 0,
    ensures
        (x + n) % n == x % n,
{
    lemma_add_mod_noop(x, n, n);
    lemma_mod_self_0(n);
    lemma_mod_bound(x, n);
    lemma_small_mod((x % n) as nat, n as nat);
}

/// Two offsets from one base, less than a full turn apart, wrap to
/// positions whose cyclic distance is exactly the offset difference.
proof fn lemma_pos_diff(base: int, o1: int, o2: int, n: int)
    requires
        n > 0,
        0 <= base < n,
        0 <= o1 <= o2,
        o2 - o1 < n,
    ensures
        ((base + o2) % n - (base + o1) % n + n) % n == o2 - o1,
        ((base + o1) % n == (base + o2) % n) <==> (o1 == o2),
{
    let p1 = (base + o1) % n;
    let p2 = (base + o2) % n;
    let q1 = (base + o1) / n;
    let q2 = (base + o2) / n;
    lemma_fundamental_div_mod(base + o1, n);
    lemma_fundamental_div_mod(base + o2, n);
    lemma_mod_bound(base + o1, n);
    lemma_mod_bound(base + o2, n);
    let d = o2 - o1;
    assert(p2 - p1 == d + (q1 - q2) * n) by (nonlinear_arith)
        requires
            base + o1 == q1 * n + p1,
            base + o2 == q2 * n + p2,
            d == o2 - o1,
    ;
    assert(q2 - q1 == 0 || q2 - q1 == 1) by (nonlinear_arith)
        requires
            p2 - p1 == d + (q1 - q2) * n,
            0 <= d < n,
            0 <= p1 < n,
            0 <= p2 < n,
            n > 0,
    ;
    if q2 == q1 {
        assert(p2 - p1 == d);
        lemma_fundamental_div_mod_converse(d + n, n, 1, d);
    } else {
        assert((q1 - q2) * n == -n) by (nonlinear_arith)
            requires
                q2 - q1 == 1,
        ;
        assert(p2 - p1 + n == d);
        lemma_small_mod(d as nat, n as nat);
    }
}

/// Two offsets from one base, less than two turns apart, wrap to the same
/// position exactly when they differ by zero or one full turn.
proof fn lemma_pos_eq(base: int, o1: int, o2: int, n: int)
    requires
        n > 0,
        0 <= base < n,
        0 <= o1 <= o2,
        o2 - o1 < 2 * n,
    ensures
        ((base + o1) % n == (base + o2) % n) <==> (o2 - o1 == 0 || o2 - o1 == n),
{
    if o2 - o1 < n {
        lemma_pos_diff(base, o1, o2, n);
    } else {
        lemma_pos_diff(base, o1, o2 - n, n);
        lemma_mod_add_n(base + o2 - n, n);
        assert((base + o2) % n == (base + o2 - n) % n);
    }
}

/// One write behind the frontier keeps every byte already written this
/// append, and every byte of the still-live tail of the old records.
proof fn lemma_set_keeps_regions(
    oldb: Seq<u8>,
    pre: Seq<u8>,
    cur: Seq<u8>,
    os: int,
    nn: int,
    ll: int,
    j: int,
    ck: int,
    dat: Seq<u8>,
)
    requires
        nn >= 1,
        0 <= os < nn,
        0 <= ll < nn,
        0 <= j,
        0 <= j < dat.len() < nn,
        ck > ll + j - nn,
        0 <= ck <= ll,
        pre.len() == nn,
        cur == pre.update(wrap(os, ll + j + 1, nn), dat[j]),
        forall|o: int| ll + 1 <= o <= ll + j ==> pre[#[trigger] wrap(os, o, nn)] == dat[o - ll - 1],
        forall|o: int| ck < o <= ll ==> pre[#[trigger] wrap(os, o, nn)] == oldb[wrap(os, o, nn)],
    ensures
        forall|o: int|
            ll + 1 <= o <= ll + j + 1 ==> cur[#[trigger] wrap(os, o, nn)] == dat[o - ll - 1],
        forall|o: int| ck < o <= ll ==> cur[#[trigger] wrap(os, o, nn)] == oldb[wrap(os, o, nn)],
{
    lemma_mod_bound(os + ll + j + 1, nn);
    assert(cur[wrap(os, ll + j + 1, nn)] == dat[j]);
    assert forall|o: int| ll + 1 <= o <= ll + j implies cur[#[trigger] wrap(os, o, nn)] == dat[o
        - ll - 1] by {
        lemma_pos_eq(os, o, ll + j + 1, nn);
        assert(cur[wrap(os, o, nn)] == pre[wrap(os, o, nn)]);
    }
    assert forall|o: int| ck < o <= ll implies cur[#[trigger] wrap(os, o, nn)] == oldb[wrap(
        os,
        o,
        nn,
    )] by {
        lemma_pos_eq(os, o, ll + j + 1, nn);
        assert(cur[wrap(os, o, nn)] == pre[wrap(os, o, nn)]);
    }
}

/// Between the delimiter before record `k` and the one that ends it, the
/// current bytes of a partly overwritten ring are that record's bytes:
/// nonzero up to the ending delimiter.
proof fn lemma_record_bytes_nonzero(
    cur: Seq<u8>,
    oldb: Seq<u8>,
    orecs: Seq<Seq<u8>>,
    os: int,
    nn: int,
    k: int,
)
    requires
        nn >= 1,
        0 <= os < nn,
        recs_ok(orecs),
        0 <= k < orecs.len(),
        0 <= enc_len(orecs) < nn,
        forall|o: int|
            1 <= o <= enc_len(orecs) ==> oldb[#[trigger] wrap(os, o, nn)] == encode(orecs)[o - 1],
        forall|o: int|
            enc_len(orecs.take(k)) < o <= enc_len(orecs) ==> cur[#[trigger] wrap(os, o, nn)]
                == oldb[wrap(os, o, nn)],
    ensures
        enc_len(orecs.take(k + 1)) == enc_len(orecs.take(k)) + orecs[k].len() + 1,
        enc_len(orecs.take(k + 1)) <= enc_len(orecs),
        0 <= enc_len(orecs.take(k)),
        forall|o: int|
            enc_len(orecs.take(k)) < o < enc_len(orecs.take(k + 1)) ==> cur[
                #[trigger] wrap(os, o, nn)
            ] != 0u8,
        cur[wrap(os, enc_len(orecs.take(k + 1)), nn)] == 0u8,
{
    let ck = enc_len(orecs.take(k));
    let ck1 = enc_len(orecs.take(k + 1));
    lemma_enc_len_take_succ(orecs, k);
    lemma_enc_len_take_le(orecs, 0, k);
    assert(orecs.take(0) =~= Seq::<Seq<u8>>::empty());
    lemma_enc_len_take_le(orecs, k + 1, orecs.len() as int);
    assert(orecs.take(orecs.len() as int) =~= orecs);
    assert(rec_ok(orecs[k]));
    assert forall|o: int| ck < o < ck1 implies cur[#[trigger] wrap(os, o, nn)] != 0u8 by {
        lemma_encode_at(orecs, k, o - 1 - ck);
        assert(cur[wrap(os, o, nn)] == encode(orecs)[o - 1]);
    }
    lemma_encode_at(orecs, k, orecs[k].len() as int);
    assert(cur[wrap(os, ck1, nn)] == encode(orecs)[ck1 - 1]);
}

/// After the whole frame is written and the read boundary rests on the
/// delimiter before record `k`, the live bytes are exactly the framing of
/// the surviving records with the new one at the back.
proof fn lemma_live_matches(
    cur: Seq<u8>,
    oldb: Seq<u8>,
    orecs: Seq<Seq<u8>>,
    rec: Seq<u8>,
    os: int,
    nn: int,
    k: int,
)
    requires
        nn >= 1,
        0 <= os < nn,
        recs_ok(orecs),
        rec_ok(rec),
        0 <= k <= orecs.len(),
        0 <= enc_len(orecs) < nn,
        rec.len() + 1 < nn,
        enc_len(orecs.take(k)) > enc_len(orecs) + rec.len() + 1 - nn,
        0 <= enc_len(orecs.take(k)) <= enc_len(orecs),
        forall|o: int|
            1 <= o <= enc_len(orecs) ==> oldb[#[trigger] wrap(os, o, nn)] == encode(orecs)[o - 1],
        forall|o: int|
            enc_len(orecs) + 1 <= o <= enc_len(orecs) + rec.len() + 1 ==> cur[
                #[trigger] wrap(os, o, nn)
            ] == rec.push(0u8)[o - enc_len(orecs) - 1],
        forall|o: int|
            enc_len(orecs.take(k)) < o <= enc_len(orecs) ==> cur[#[trigger] wrap(os, o, nn)]
                == oldb[wrap(os, o, nn)],
    ensures
        encode(orecs.skip(k).push(rec)).len() == enc_len(orecs) + rec.len() + 1 - enc_len(
            orecs.take(k),
        ),
        forall|p: int|
            0 <= p < enc_len(orecs) + rec.len() + 1 - enc_len(orecs.take(k)) ==> cur[
                #[trigger] wrap(os, enc_len(orecs.take(k)) + 1 + p, nn)
            ] == encode(orecs.skip(k).push(rec))[p],
        recs_ok(orecs.skip(k).push(rec)),
{
    let ck = enc_len(orecs.take(k));
    let ll = enc_len(orecs);
    let dat = rec.push(0u8);
    let newrecs = orecs.skip(k).push(rec);
    lemma_encode_split(orecs, k);
    lemma_encode_push(orecs.skip(k), rec);
    assert(encode_rec(rec) == dat);
    assert forall|p: int| 0 <= p < ll + rec.len() + 1 - ck implies cur[
        #[trigger] wrap(os, ck + 1 + p, nn)
    ] == encode(newrecs)[p] by {
        if ck + 1 + p <= ll {
            assert(cur[wrap(os, ck + 1 + p, nn)] == oldb[wrap(os, ck + 1 + p, nn)]);
            assert(oldb[wrap(os, ck + 1 + p, nn)] == encode(orecs)[ck + p]);
            assert(encode(orecs)[ck + p] == encode(orecs.skip(k))[p]);
            assert(encode(newrecs)[p] == encode(orecs.skip(k))[p]);
        } else {
            assert(cur[wrap(os, ck + 1 + p, nn)] == dat[ck + p - ll]);
            assert(encode(newrecs)[p] == dat[p - (ll - ck)]);
        }
    }
    assert forall|i: int| 0 <= i < newrecs.len() implies rec_ok(#[trigger] newrecs[i]) by {
        if i < newrecs.len() - 1 {
            assert(newrecs[i] == orecs[k + i]);
            assert(rec_ok(orecs[k + i]));
        }
    }
}

/// The fixed-capacity record ring. `buffer` is allocated once and never
/// grows; `recs` is the ghost sequence of live records that the byte
/// layout encodes.
pub struct CircularBuffer {
    start: usize,
    end: usize,
    buffer: Vec<u8>,
    recs: Ghost<Seq<Seq<u8>>>,
}

impl CircularBuffer {
    /// The fixed size of the byte storage.
    pub closed spec fn capacity(self) -> int {
        self.buffer@.len() as int
    }

    /// The live records, oldest first.
    pub closed spec fn records(self) -> Seq<Seq<u8>> {
        self.recs@
    }

    /// The read boundary: index of the delimiter before the oldest record.
    pub closed spec fn start_index(self) -> int {
        self.start as int
    }

    /// The write boundary: index of the newest record's delimiter.
    pub closed spec fn end_index(self) -> int {
        self.end as int
    }

    /// How many bytes are live, walking from `start` (exclusive) to `end`
    /// (inclusive) with wraparound.
    pub closed spec fn live_len(self) -> int {
        (self.end - self.start + self.capacity()) % self.capacity()
    }

    /// The live bytes in arrival order.
    pub closed spec fn live(self) -> Seq<u8> {
        Seq::new(
            self.live_len() as nat,
            |p: int| self.buffer@[(self.start + 1 + p) % self.capacity()],
        )
    }

    /// The structure's invariant: cursors in range, a delimiter at `end`,
    /// and the live bytes are exactly the framed live records.
    pub closed spec fn wf(self) -> bool {
        &&& self.capacity() >= 1
        &&& self.start_index() < self.capacity()
        &&& self.end_index() < self.capacity()
        &&& self.buffer@[self.end_index()] == 0u8
        &&& self.live() == encode(self.recs@)
        &&& recs_ok(self.recs@)
    }

    /// Position of the delimiter just before record `i` (for `i` equal to
    /// the record count, the write boundary itself).
    pub closed spec fn boundary(self, i: int) -> int {
        (self.start + enc_len(self.recs@.take(i))) % self.capacity()
    }

    /// A well-formed ring's framed records fit with one byte to spare, and
    /// the write boundary sits one framed length past the read boundary.
    proof fn lemma_wf_facts(self)
        requires
            self.wf(),
        ensures
            0 <= enc_len(self.recs@) < self.capacity(),
            enc_len(self.recs@) == self.live_len(),
            self.end_index() == (self.start_index() + enc_len(self.recs@)) % self.capacity(),
    {
        let n = self.capacity();
        lemma_mod_bound(self.end - self.start + n, n);
        assert(self.live().len() == self.live_len());
        lemma_mod_add_left(self.end - self.start + n, self.start as int, n);
        assert((self.start + self.live_len()) % n == (self.end + n) % n);
        lemma_mod_add_n(self.end as int, n);
        lemma_small_mod(self.end as nat, n as nat);
    }

    /// A freshly built ring of the given capacity: zero-filled storage,
    /// both boundaries at zero, no live records.
    pub fn new(capacity: usize) -> (r: CircularBuffer)
        requires
            capacity >= 1,
        ensures
            r.wf(),
            r.capacity() == capacity,
            r.records() == Seq::<Seq<u8>>::empty(),
            r.start_index() == 0,
            r.end_index() == 0,
    {
        let mut buffer: Vec<u8> = Vec::new();
        let mut i: usize = 0;
        while i < capacity
            invariant
                i <= capacity,
                buffer@.len() == i,
                forall|j: int| 0 <= j < i ==> buffer@[j] == 0u8,
            decreases capacity - i,
        {
            buffer.push(0u8);
            i = i + 1;
        }
        let r = CircularBuffer { start: 0, end: 0, buffer, recs: Ghost(Seq::empty()) };
        proof {
            lemma_mod_self_0(capacity as int);
            assert(r.live_len() == 0);
            assert(r.live() =~= encode(r.recs@));
        }
        r
    }

    /// The read boundary, as the tests observe it.
    pub fn start_ptr(&self) -> (r: usize)
        ensures
            r == self.start_index(),
    {
        self.start
    }

    /// The write boundary, as the tests observe it.
    pub fn end_ptr(&self) -> (r: usize)
        ensures
            r == self.end_index(),
    {
        self.end
    }

    /// Append one record: its bytes, then a delimiter, written behind the
    /// write boundary one byte at a time, evicting the oldest records
    /// whenever the write cursor catches the read boundary. A record whose
    /// framed length cannot fit even in an empty ring is rejected.
    #[verifier::loop_isolation(false)]
    #[verifier::rlimit(100)]
    pub fn write_str(&mut self, rec: &[u8]) -> (r: Result<(), BufferError>)
        requires
            old(self).wf(),
            rec_ok(rec@),
        ensures
            final(self).wf(),
            final(self).capacity() == old(self).capacity(),
            rec@.len() + 1 >= old(self).capacity() ==> r is Err && *final(self) == *old(self)
                && r->Err_0 == BufferError::ContractViolation,
            rec@.len() + 1 < old(self).capacity() ==> r is Ok && final(self).records()
                == append_model(old(self).records(), rec@, old(self).capacity()),
            rec@.len() + 1 < old(self).capacity() ==> final(self).end_index() == (
            old(self).end_index() + rec@.len() + 1) % old(self).capacity(),
    {
        let n = self.buffer.len();
        if rec.len() >= n - 1 {
            return Err(BufferError::ContractViolation);
        }
        let ghost orecs = self.recs@;
        let ghost os = self.start as int;
        let ghost nn = n as int;
        let ghost kk = orecs.len() as int;
        let ghost ll = enc_len(orecs);
        let ghost dat = rec@.push(0u8);
        let m = rec.len() + 1;
        let ghost mm = m as int;
        proof {
            self.lemma_wf_facts();
            lemma_enc_len_take_le(orecs, 0, kk);
            assert(orecs.take(0) =~= Seq::<Seq<u8>>::empty());
            assert(orecs.take(kk) =~= orecs);
            assert(encode(Seq::<Seq<u8>>::empty()) =~= Seq::<u8>::empty());
            // the live bytes, read off through ring positions
            assert forall|o: int| 1 <= o <= ll implies old(self).buffer@[
                #[trigger] wrap(os, o, nn)
            ] == encode(orecs)[o - 1] by {
                assert(self.live()[o - 1] == self.buffer@[(self.start + 1 + (o - 1)) % nn]);
            }
            lemma_small_mod(os as nat, nn as nat);
        }
        let mut j: usize = 0;
        let ghost mut k: int = 0;
        while j < m
            invariant
                j <= m,
                0 <= k <= kk,
                self.recs@ == orecs,
                self.buffer@.len() == nn,
                self.end as int == wrap(os, ll + j, nn),
                self.end < self.buffer@.len(),
                self.start < self.buffer@.len(),
                (enc_len(orecs.take(k)) > ll + j - nn && self.start as int == wrap(
                    os,
                    enc_len(orecs.take(k)),
                    nn,
                ) && (k == 0 || enc_len(orecs.take(k - 1)) <= ll + mm - 1 - nn)) || (j == m
                    && enc_len(orecs.take(k)) == ll + mm - nn && self.start == self.end && (k == 0
                    || enc_len(orecs.take(k - 1)) <= ll + mm - 1 - nn)),
                forall|o: int|
                    ll + 1 <= o <= ll + j ==> self.buffer@[#[trigger] wrap(os, o, nn)] == dat[o
                        - ll - 1],
                forall|o: int|
                    enc_len(orecs.take(k)) < o <= ll ==> self.buffer@[#[trigger] wrap(os, o, nn)]
                        == old(self).buffer@[wrap(os, o, nn)],
            decreases m - j,
        {
            let ghost ck = enc_len(orecs.take(k));
            let byte = if j < rec.len() {
                rec[j]
            } else {
                0u8
            };
            proof {
                assert(byte == dat[j as int]);
                lemma_mod_add_left(os + ll + j, 1, nn);
                lemma_mod_bound(os + ll + j + 1, nn);
            }
            self.inc_end_ptr();
            let ghost prewrite = self.buffer@;
            self.buffer.set(self.end, byte);
            proof {
                assert(self.buffer@ == prewrite.update(wrap(os, ll + j + 1, nn), dat[j as int]));
                lemma_enc_len_take_le(orecs, 0, k);
                lemma_enc_len_take_le(orecs, k, kk);
                lemma_set_keeps_regions(
                    old(self).buffer@,
                    prewrite,
                    self.buffer@,
                    os,
                    nn,
                    ll,
                    j as int,
                    ck,
                    dat,
                );
            }
            if self.end == self.start {
                proof {
                    lemma_enc_len_take_le(orecs, k, kk);
                    lemma_pos_eq(os, ck, ll + j + 1, nn);
                    assert(ck == ll + j + 1 - nn);
                }
                if byte != 0u8 {
                    proof {
                        assert(j < rec@.len());
                        if k == kk {
                            assert(ck == ll);
                        }
                        lemma_record_bytes_nonzero(
                            self.buffer@,
                            old(self).buffer@,
                            orecs,
                            os,
                            nn,
                            k,
                        );
                    }
                    let ghost ck1 = enc_len(orecs.take(k + 1));
                    let ghost d = ck1 - ck;
                    proof {
                        lemma_small_mod(self.start as nat, nn as nat);
                        assert(wrap(self.start as int, 0, nn) == self.start as int);
                        assert(self.buffer@[wrap(self.start as int, 0, nn)] == byte);
                        assert forall|e: int| 1 <= e < d implies self.buffer@[
                            #[trigger] wrap(self.start as int, e, nn)
                        ] != 0u8 by {
                            lemma_mod_add_left(os + ck, e, nn);
                            assert(wrap(self.start as int, e, nn) == wrap(os, ck + e, nn));
                        }
                        lemma_mod_add_left(os + ck, d, nn);
                        assert(wrap(self.start as int, d, nn) == wrap(os, ck1, nn));
                    }
                    self.fastforward_start_ptr(Ghost(d));
                    proof {
                        k = k + 1;
                        lemma_mod_bound(os + ck1, nn);
                    }
                } else {
                    proof {
                        lemma_small_mod(self.start as nat, nn as nat);
                    }
                    self.fastforward_start_ptr(Ghost(0));
                    proof {
                        assert(j + 1 == mm);
                    }
                }
            } else {
                proof {
                    lemma_enc_len_take_le(orecs, k, kk);
                    lemma_pos_eq(os, ck, ll + j + 1, nn);
                    assert(ck != ll + j + 1 - nn);
                }
            }
            j = j + 1;
        }
        let ghost ck = enc_len(orecs.take(k));
        proof {
            lemma_enc_len_take_le(orecs, k, kk);
            if k > 0 {
                lemma_enc_len_take_le(orecs, 0, k - 1);
            }
        }
        if self.start == self.end {
            proof {
                if ck > ll + mm - nn {
                    lemma_pos_eq(os, ck, ll + mm, nn);
                    assert(false);
                }
                self.recs = Ghost(Seq::<Seq<u8>>::empty());
                lemma_append_model_at(orecs, rec@, nn, k);
                lemma_mod_self_0(nn);
                assert(self.live_len() == 0);
                assert(self.live() =~= encode(self.recs@));
                assert(self.buffer@[wrap(os, ll + mm, nn)] == dat[mm - 1]);
            }
        } else {
            proof {
                if ck == ll + mm - nn {
                    lemma_pos_eq(os, ck, ll + mm, nn);
                    assert(false);
                }
                let newrecs = orecs.skip(k).push(rec@);
                self.recs = Ghost(newrecs);
                lemma_append_model_at(orecs, rec@, nn, k);
                lemma_live_matches(self.buffer@, old(self).buffer@, orecs, rec@, os, nn, k);
                let newlen = ll + mm - ck;
                lemma_pos_diff(os, ck, ll + mm, nn);
                assert(self.live_len() == newlen);
                assert forall|p: int| 0 <= p < newlen implies self.live()[p] == encode(newrecs)[p]
                    by {
                    lemma_mod_add_left(os + ck, 1 + p, nn);
                    assert(self.live()[p] == self.buffer@[(self.start + 1 + p) % nn]);
                    assert((self.start + 1 + p) % nn == wrap(os, ck + 1 + p, nn));
                }
                assert(self.live() =~= encode(newrecs));
                assert(self.buffer@[wrap(os, ll + mm, nn)] == dat[mm - 1]);
            }
        }
        proof {
            lemma_mod_add_left(os + ll, mm, nn);
        }
        Ok(())
    }

    /// The boundary before record `i` is the write boundary exactly for
    /// `i` past the last record: boundaries of live records are distinct.
    proof fn lemma_boundary_end(self, i: int)
        requires
            self.wf(),
            0 <= i <= self.records().len(),
        ensures
            (self.boundary(i) == self.end_index()) <==> (i == self.records().len()),
    {
        let recs = self.recs@;
        let kk = recs.len() as int;
        let nn = self.capacity();
        self.lemma_wf_facts();
        assert(recs.take(kk) =~= recs);
        if i < kk {
            lemma_enc_len_take_le(recs, 0, i);
            assert(recs.take(0) =~= Seq::<Seq<u8>>::empty());
            lemma_enc_len_take_le(recs, i, kk);
            lemma_pos_diff(
                self.start as int,
                enc_len(recs.take(i)),
                enc_len(recs),
                nn,
            );
        }
    }

    /// Read the record whose leading delimiter sits at `cursor`, returning
    /// its bytes and the position of its terminating delimiter.
    #[verifier::loop_isolation(false)]
    fn read_record(&self, cursor: usize, Ghost(i): Ghost<int>) -> (res: (Vec<u8>, usize))
        requires
            self.wf(),
            0 <= i < self.records().len(),
            cursor as int == self.boundary(i),
        ensures
            res.0@ == self.records()[i],
            res.1 as int == self.boundary(i + 1),
    {
        let n = self.buffer.len();
        let ghost s = self.start as int;
        let ghost nn = n as int;
        let ghost recs = self.recs@;
        let ghost ci = enc_len(recs.take(i));
        let ghost ri = recs[i];
        proof {
            self.lemma_wf_facts();
            assert(rec_ok(recs[i]));
            lemma_enc_len_take_le(recs, 0, i);
            assert(recs.take(0) =~= Seq::<Seq<u8>>::empty());
            lemma_enc_len_take_succ(recs, i);
            lemma_enc_len_take_le(recs, i + 1, recs.len() as int);
            assert(recs.take(recs.len() as int) =~= recs);
            assert forall|o: int| 1 <= o <= enc_len(recs) implies self.buffer@[
                #[trigger] wrap(s, o, nn)
            ] == encode(recs)[o - 1] by {
                assert(self.live()[o - 1] == self.buffer@[(self.start + 1 + (o - 1)) % nn]);
            }
            lemma_mod_add_left(s + ci, 1, nn);
            lemma_mod_bound(s + ci, nn);
            lemma_mod_bound(s + ci + 1, nn);
        }
        let mut cursor = (cursor + 1) % n;
        let mut out: Vec<u8> = Vec::new();
        let ghost mut t: int = 0;
        while self.buffer[cursor] != 0u8
            invariant
                0 <= t <= ri.len(),
                out@ == ri.take(t),
                cursor as int == wrap(s, ci + 1 + t, nn),
                cursor < n,
            decreases ri.len() - t,
        {
            proof {
                lemma_encode_at(recs, i, t);
                assert(self.buffer@[wrap(s, ci + 1 + t, nn)] == encode(recs)[ci + t]);
            }
            out.push(self.buffer[cursor]);
            proof {
                assert(out@ =~= ri.take(t + 1));
                lemma_mod_add_left(s + ci + 1 + t, 1, nn);
                lemma_mod_bound(s + ci + 1 + t + 1, nn);
            }
            cursor = (cursor + 1) % n;
            proof {
                t = t + 1;
            }
        }
        proof {
            lemma_encode_at(recs, i, t);
            assert(self.buffer@[wrap(s, ci + 1 + t, nn)] == encode(recs)[ci + t]);
            assert(t == ri.len());
            assert(out@ =~= ri);
        }
        (out, cursor)
    }

    /// The live records, oldest to newest, as raw bytes. Read-only: the
    /// result is pinned to the ring's record sequence.
    #[verifier::loop_isolation(false)]
    pub fn replay_bytes(&self) -> (r: Vec<Vec<u8>>)
        requires
            self.wf(),
        ensures
            r@.len() == self.records().len(),
            forall|i: int| 0 <= i < r@.len() ==> r@[i]@ == self.records()[i],
    {
        let ghost recs = self.recs@;
        let ghost kk = recs.len() as int;
        proof {
            self.lemma_wf_facts();
            assert(recs.take(0) =~= Seq::<Seq<u8>>::empty());
            lemma_small_mod(self.start as nat, self.capacity() as nat);
        }
        let mut out: Vec<Vec<u8>> = Vec::new();
        let mut cursor = self.start;
        let ghost mut i: int = 0;
        while cursor != self.end
            invariant
                0 <= i <= kk,
                out@.len() == i,
                forall|q: int| 0 <= q < i ==> out@[q]@ == recs[q],
                cursor as int == self.boundary(i),
            decreases kk - i,
        {
            proof {
                self.lemma_boundary_end(i);
            }
            let (rec, next) = self.read_record(cursor, Ghost(i));
            out.push(rec);
            cursor = next;
            proof {
                i = i + 1;
            }
        }
        proof {
            self.lemma_boundary_end(i);
        }
        out
    }

    /// Hand the ring over to an iterator that yields its records oldest
    /// to newest.
    pub fn into_iter(self) -> (it: CircularBufferIterator)
        requires
            self.wf(),
        ensures
            it.wf(),
            it.remaining() == self.records(),
    {
        let cursor = self.start;
        proof {
            assert(self.recs@.take(0) =~= Seq::<Seq<u8>>::empty());
            lemma_small_mod(self.start as nat, self.capacity() as nat);
            assert(self.recs@.skip(0) =~= self.recs@);
        }
        CircularBufferIterator { buffer: self, cursor, idx: Ghost(0) }
    }

    /// The live records decoded as text, oldest to newest. Fails exactly
    /// when some stored record is not valid UTF-8.
    #[verifier::loop_isolation(false)]
    pub fn replay(&self) -> (r: Result<Vec<String>, BufferError>)
        requires
            self.wf(),
        ensures
            r is Ok <==> (forall|i: int|
                0 <= i < self.records().len() ==> valid_utf8(#[trigger] self.records()[i])),
            r is Ok ==> r->Ok_0@.len() == self.records().len(),
            r is Ok ==> forall|i: int|
                0 <= i < self.records().len() ==> r->Ok_0@[i]@ == decode_utf8(
                    #[trigger] self.records()[i],
                ),
            r is Err ==> r->Err_0 == BufferError::DecodeFailure,
    {
        let raw = self.replay_bytes();
        let mut out: Vec<String> = Vec::new();
        let mut i: usize = 0;
        while i < raw.len()
            invariant
                i <= raw@.len(),
                out@.len() == i,
                forall|q: int| 0 <= q < i ==> valid_utf8(#[trigger] self.records()[q]),
                forall|q: int|
                    0 <= q < i ==> out@[q]@ == decode_utf8(#[trigger] self.records()[q]),
            decreases raw@.len() - i,
        {
            match decode_record(&raw[i]) {
                Some(s) => out.push(s),
                None => {
                    proof {
                        assert(raw@[i as int]@ == self.records()[i as int]);
                        assert(!valid_utf8(self.records()[i as int]));
                    }
                    return Err(BufferError::DecodeFailure);
                },
            }
            i = i + 1;
        }
        Ok(out)
    }

    fn inc_start_ptr(&mut self)
        requires
            old(self).buffer@.len() >= 1,
            old(self).start < old(self).buffer@.len(),
        ensures
            final(self).start as int == (old(self).start + 1) % (old(self).buffer@.len() as int),
            final(self).end == old(self).end,
            final(self).buffer == old(self).buffer,
            final(self).recs == old(self).recs,
    {
        let n = self.buffer.len();
        self.start = (self.start + 1) % n;
    }

    fn inc_end_ptr(&mut self)
        requires
            old(self).buffer@.len() >= 1,
            old(self).end < old(self).buffer@.len(),
        ensures
            final(self).end as int == (old(self).end + 1) % (old(self).buffer@.len() as int),
            final(self).start == old(self).start,
            final(self).buffer == old(self).buffer,
            final(self).recs == old(self).recs,
    {
        let n = self.buffer.len();
        self.end = (self.end + 1) % n;
    }

    /// Advance the read boundary to the next delimiter. The caller names
    /// the distance `d` to the first delimiter ahead; the scan stops there.
    fn fastforward_start_ptr(&mut self, Ghost(d): Ghost<int>)
        requires
            old(self).buffer@.len() >= 1,
            old(self).start < old(self).buffer@.len(),
            0 <= d < old(self).buffer@.len(),
            old(self).buffer@[wrap(old(self).start as int, d, old(self).buffer@.len() as int)]
                == 0u8,
            forall|e: int|
                0 <= e < d ==> old(self).buffer@[
                    #[trigger] wrap(old(self).start as int, e, old(self).buffer@.len() as int)
                ] != 0u8,
        ensures
            final(self).start as int == wrap(
                old(self).start as int,
                d,
                old(self).buffer@.len() as int,
            ),
            final(self).end == old(self).end,
            final(self).buffer == old(self).buffer,
            final(self).recs == old(self).recs,
    {
        let ghost s0 = old(self).start as int;
        let ghost n = old(self).buffer@.len() as int;
        let ghost mut i: int = 0;
        proof {
            lemma_small_mod(s0 as nat, n as nat);
        }
        while self.buffer[self.start] != 0u8
            invariant
                n == self.buffer@.len(),
                n >= 1,
                0 <= s0 < n,
                0 <= d < n,
                self.buffer == old(self).buffer,
                self.end == old(self).end,
                self.recs == old(self).recs,
                0 <= i <= d,
                self.start as int == wrap(s0, i, n),
                self.start < self.buffer@.len(),
                self.buffer@[wrap(s0, d, n)] == 0u8,
                forall|e: int| 0 <= e < d ==> self.buffer@[#[trigger] wrap(s0, e, n)] != 0u8,
            decreases d - i,
        {
            proof {
                if i == d {
                    assert(self.buffer@[wrap(s0, d, n)] != 0u8);
                }
                lemma_mod_add_left(s0 + i, 1, n);
            }
            self.inc_start_ptr();
            proof {
                i = i + 1;
            }
        }
        proof {
            if i < d {
                assert(self.buffer@[wrap(s0, i, n)] != 0u8);
            }
        }
    }
}

/// Walks the records of a ring it owns, oldest to newest.
pub struct CircularBufferIterator {
    buffer: CircularBuffer,
    cursor: usize,
    idx: Ghost<int>,
}

impl CircularBufferIterator {
    /// The iterator sits on the delimiter before the next record to yield.
    pub closed spec fn wf(self) -> bool {
        &&& self.buffer.wf()
        &&& 0 <= self.idx@ <= self.buffer.records().len()
        &&& self.cursor as int == self.buffer.boundary(self.idx@)
    }

    /// The records not yet yielded, oldest first.
    pub closed spec fn remaining(self) -> Seq<Seq<u8>> {
        self.buffer.records().skip(self.idx@)
    }

    /// Yield the next record's bytes, or nothing once every live record
    /// has been produced.
    pub fn next(&mut self) -> (r: Option<Vec<u8>>)
        requires
            old(self).wf(),
        ensures
            final(self).wf(),
            old(self).remaining().len() == 0 ==> r is None && *final(self) == *old(self),
            old(self).remaining().len() > 0 ==> r is Some && r->Some_0@ == old(self).remaining()[0]
                && final(self).remaining() == old(self).remaining().skip(1),
    {
        proof {
            self.buffer.lemma_boundary_end(self.idx@);
        }
        if self.cursor == self.buffer.end {
            None
        } else {
            let (rec, next) = self.buffer.read_record(self.cursor, Ghost(self.idx@));
            self.cursor = next;
            proof {
                self.idx = Ghost(self.idx@ + 1);
                assert(old(self).buffer.records().skip(old(self).idx@)[0] == rec@);
                assert(self.remaining() =~= old(self).remaining().skip(1));
            }
            Some(rec)
        }
    }
}

/// Relies on std's String::from_utf8: it returns a string exactly when
/// the bytes are valid UTF-8, and that string's characters are the
/// decoding of those bytes.
#[verifier::external_body]
fn decode_record(bytes: &Vec<u8>) -> (r: Option<String>)
    ensures
        r is Some <==> valid_utf8(bytes@),
        r is Some ==> r->Some_0@ == decode_utf8(bytes@),
{
    String::from_utf8(bytes.clone()).ok()
}

/// Law: replay is deterministic and read-only. Its contract pins any
/// result to the ring's one record sequence, so two replays of the same
/// unchanged ring see the same records.
pub proof fn lemma_replay_idempotent(b: CircularBuffer, r1: Seq<Seq<u8>>, r2: Seq<Seq<u8>>)
    requires
        r1 == b.records(),
        r2 == b.records(),
    ensures
        r1 == r2,
{
}

} // verus!
