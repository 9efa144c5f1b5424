//! The mathematical model of the record log: a sequence of byte records,
//! each free of the delimiter byte, laid out as `record ++ [0]` frames.
use vstd::prelude::*;

verus! {

/// A record may not contain the delimiter byte 0.
pub open spec fn rec_ok(r: Seq<u8>) -> bool {
    forall|i: int| 0 <= i < r.len() ==> r[i] != 0u8
}

/// Every record of the sequence is delimiter-free.
pub open spec fn recs_ok(rs: Seq<Seq<u8>>) -> bool {
    forall|i: int| 0 <= i < rs.len() ==> rec_ok(#[trigger] rs[i])
}

/// One record as it is framed in storage: its bytes followed by the delimiter.
pub open spec fn encode_rec(r: Seq<u8>) -> Seq<u8> {
    r.push(0u8)
}

/// A record sequence as it is framed in storage.
pub open spec fn encode(rs: Seq<Seq<u8>>) -> Seq<u8>
    decreases rs.len(),
{
    if rs.len() == 0 {
        Seq::empty()
    } else {
        encode_rec(rs[0]) + encode(rs.skip(1))
    }
}

/// Number of bytes the framed sequence occupies.
pub open spec fn enc_len(rs: Seq<Seq<u8>>) -> int {
    encode(rs).len() as int
}

/// What a completed append leaves live, given the records that were live
/// before, the new record and the capacity `n`. While the framed bytes do
/// not fit beside the new frame with one byte to spare, the oldest record
/// is evicted; if the new frame's delimiter lands exactly on the read
/// boundary, the eviction scan meets the write boundary and the log is
/// left empty.
pub open spec fn append_model(rs: Seq<Seq<u8>>, rec: Seq<u8>, n: int) -> Seq<Seq<u8>>
    decreases rs.len(),
{
    if enc_len(rs) + rec.len() + 1 < n {
        rs.push(rec)
    } else if enc_len(rs) + rec.len() + 1 == n {
        Seq::empty()
    } else if rs.len() == 0 {
        Seq::empty()
    } else {
        append_model(rs.skip(1), rec, n)
    }
}

/// The records live after a whole sequence of appends into a log of
/// capacity `n` that started empty.
pub open spec fn replay_after(appends: Seq<Seq<u8>>, n: int) -> Seq<Seq<u8>>
    decreases appends.len(),
{
    if appends.len() == 0 {
        Seq::empty()
    } else {
        append_model(replay_after(appends.drop_last(), n), appends.last(), n)
    }
}

/// Framing distributes over splitting the sequence at any index.
pub proof fn lemma_encode_split(rs: Seq<Seq<u8>>, k: int)
    requires
        0 <= k <= rs.len(),
    ensures
        encode(rs) == encode(rs.take(k)) + encode(rs.skip(k)),
    decreases k,
{
    if k == 0 {
        assert(rs.take(0) =~= Seq::empty());
        assert(rs.skip(0) =~= rs);
        assert(encode(rs) =~= encode(rs.take(0)) + encode(rs.skip(0)));
    } else {
        lemma_encode_split(rs.skip(1), k - 1);
        assert(rs.skip(1).take(k - 1) =~= rs.take(k).skip(1));
        assert(rs.skip(1).skip(k - 1) =~= rs.skip(k));
        assert(rs.take(k)[0] == rs[0]);
        assert(encode(rs.take(k)) == encode_rec(rs[0]) + encode(rs.take(k).skip(1)));
        assert(encode(rs) =~= encode(rs.take(k)) + encode(rs.skip(k)));
    }
}

/// Framing distributes over appending one record at the back.
pub proof fn lemma_encode_push(rs: Seq<Seq<u8>>, r: Seq<u8>)
    ensures
        encode(rs.push(r)) == encode(rs) + encode_rec(r),
{
    lemma_encode_split(rs.push(r), rs.len() as int);
    assert(rs.push(r).take(rs.len() as int) =~= rs);
    assert(rs.push(r).skip(rs.len() as int) =~= seq![r]);
    assert(seq![r].skip(1) =~= Seq::<Seq<u8>>::empty());
    assert(seq![r][0] == r);
    assert(encode(seq![r]) == encode_rec(r) + encode(Seq::<Seq<u8>>::empty()));
    assert(encode(seq![r]) =~= encode_rec(r));
    assert(encode(rs.push(r)) =~= encode(rs) + encode_rec(r));
}

/// Taking one more record adds that record's framed length.
pub proof fn lemma_enc_len_take_succ(rs: Seq<Seq<u8>>, k: int)
    requires
        0 <= k < rs.len(),
    ensures
        enc_len(rs.take(k + 1)) == enc_len(rs.take(k)) + rs[k].len() + 1,
{
    assert(rs.take(k + 1) =~= rs.take(k).push(rs[k]));
    lemma_encode_push(rs.take(k), rs[k]);
}

/// Framed length of a prefix grows by at least one per record.
pub proof fn lemma_enc_len_take_le(rs: Seq<Seq<u8>>, i: int, j: int)
    requires
        0 <= i <= j <= rs.len(),
    ensures
        enc_len(rs.take(i)) + (j - i) <= enc_len(rs.take(j)),
    decreases j - i,
{
    if i < j {
        lemma_enc_len_take_le(rs, i, j - 1);
        lemma_enc_len_take_succ(rs, j - 1);
    }
}

/// The byte at offset `enc_len(rs.take(i)) + t` of the framed sequence is
/// the `t`-th byte of record `i`, or the delimiter at `t == rs[i].len()`.
pub proof fn lemma_encode_at(rs: Seq<Seq<u8>>, i: int, t: int)
    requires
        0 <= i < rs.len(),
        0 <= t <= rs[i].len(),
    ensures
        0 <= enc_len(rs.take(i)) + t < enc_len(rs),
        encode(rs)[enc_len(rs.take(i)) + t] == if t < rs[i].len() {
            rs[i][t]
        } else {
            0u8
        },
{
    lemma_encode_split(rs, i);
    lemma_enc_len_take_le(rs, 0, i);
    assert(rs.take(0) =~= Seq::<Seq<u8>>::empty());
    lemma_enc_len_take_succ(rs, i);
    lemma_enc_len_take_le(rs, i + 1, rs.len() as int);
    assert(rs.take(rs.len() as int) =~= rs);
    assert(rs.skip(i)[0] == rs[i]);
    assert(encode(rs.skip(i)) == encode_rec(rs[i]) + encode(rs.skip(i).skip(1)));
    assert(encode(rs)[enc_len(rs.take(i)) + t] == encode(rs.skip(i))[t]);
    assert(encode(rs.skip(i))[t] == encode_rec(rs[i])[t]);
}

/// Unfolding the framed length of a prefix of at least one record.
proof fn lemma_enc_len_take_unfold(rs: Seq<Seq<u8>>, k: int)
    requires
        1 <= k <= rs.len(),
    ensures
        enc_len(rs.take(k)) == rs[0].len() + 1 + enc_len(rs.skip(1).take(k - 1)),
{
    assert(rs.take(k)[0] == rs[0]);
    assert(rs.take(k).skip(1) =~= rs.skip(1).take(k - 1));
    assert(encode(rs.take(k)) == encode_rec(rs[0]) + encode(rs.take(k).skip(1)));
}

/// Pins `append_model` down from the eviction boundary the scan stops at:
/// `k` is the first index whose boundary offset reaches the write frontier
/// `enc_len(rs) + rec.len() + 1 - n`. Exactly reaching it empties the log;
/// passing it leaves records `k..` and the new record.
pub proof fn lemma_append_model_at(rs: Seq<Seq<u8>>, rec: Seq<u8>, n: int, k: int)
    requires
        rec.len() + 1 < n,
        0 <= k <= rs.len(),
        enc_len(rs.take(k)) >= enc_len(rs) + rec.len() + 1 - n,
        k > 0 ==> enc_len(rs.take(k - 1)) < enc_len(rs) + rec.len() + 1 - n,
    ensures
        enc_len(rs.take(k)) > enc_len(rs) + rec.len() + 1 - n ==> append_model(rs, rec, n)
            == rs.skip(k).push(rec),
        enc_len(rs.take(k)) == enc_len(rs) + rec.len() + 1 - n ==> append_model(rs, rec, n)
            == Seq::<Seq<u8>>::empty(),
    decreases k,
{
    assert(rs.take(0) =~= Seq::<Seq<u8>>::empty());
    if k == 0 {
        if enc_len(rs) + rec.len() + 1 < n {
            assert(rs.skip(0) =~= rs);
        }
    } else {
        lemma_enc_len_take_le(rs, 0, k - 1);
        assert(enc_len(rs) + rec.len() + 1 > n);
        assert(append_model(rs, rec, n) == append_model(rs.skip(1), rec, n));
        let rs1 = rs.skip(1);
        lemma_enc_len_take_unfold(rs, k);
        if k > 1 {
            lemma_enc_len_take_unfold(rs, k - 1);
        }
        assert(rs.take(rs.len() as int) =~= rs);
        lemma_enc_len_take_unfold(rs, rs.len() as int);
        assert(rs1.take(rs1.len() as int) =~= rs1);
        assert(enc_len(rs1) == enc_len(rs) - (rs[0].len() + 1));
        lemma_append_model_at(rs1, rec, n, k - 1);
        assert(rs1.skip(k - 1) =~= rs.skip(k));
    }
}

/// The shape of one append: some oldest records are dropped and the new
/// record is the newest, or the log is left empty.
pub proof fn lemma_append_model_shape(rs: Seq<Seq<u8>>, rec: Seq<u8>, n: int)
    requires
        rec.len() + 1 < n,
    ensures
        append_model(rs, rec, n) == Seq::<Seq<u8>>::empty() || exists|k: int|
            0 <= k <= rs.len() && append_model(rs, rec, n) == rs.skip(k).push(rec),
    decreases rs.len(),
{
    if enc_len(rs) + rec.len() + 1 < n {
        assert(rs.skip(0) =~= rs);
        assert(append_model(rs, rec, n) == rs.skip(0).push(rec));
    } else if enc_len(rs) + rec.len() + 1 == n || rs.len() == 0 {
    } else {
        lemma_append_model_shape(rs.skip(1), rec, n);
        if append_model(rs.skip(1), rec, n) != Seq::<Seq<u8>>::empty() {
            let k = choose|k: int|
                0 <= k <= rs.skip(1).len() && append_model(rs.skip(1), rec, n) == rs.skip(1).skip(
                    k,
                ).push(rec);
            assert(rs.skip(1).skip(k) =~= rs.skip(k + 1));
            assert(append_model(rs, rec, n) == rs.skip(k + 1).push(rec));
        }
    }
}

/// Law: when the framed sizes of all appended records together stay under
/// the capacity, nothing is evicted: the log replays exactly the appended
/// records, in order.
pub proof fn lemma_replay_retains_all(appends: Seq<Seq<u8>>, n: int)
    requires
        n >= 1,
        enc_len(appends) < n,
    ensures
        replay_after(appends, n) == appends,
    decreases appends.len(),
{
    if appends.len() > 0 {
        lemma_encode_push(appends.drop_last(), appends.last());
        assert(appends.drop_last().push(appends.last()) =~= appends);
        assert(enc_len(appends) == enc_len(appends.drop_last()) + appends.last().len() + 1);
        lemma_replay_retains_all(appends.drop_last(), n);
        assert(append_model(appends.drop_last(), appends.last(), n) == appends.drop_last().push(
            appends.last(),
        ));
    }
}

/// Law: replay preserves append order. After any sequence of appends that
/// each satisfy the size precondition, the live records are a suffix of
/// the appended sequence: those not yet evicted, oldest to newest.
pub proof fn lemma_replay_preserves_order(appends: Seq<Seq<u8>>, n: int)
    requires
        n >= 1,
        forall|i: int| 0 <= i < appends.len() ==> (#[trigger] appends[i]).len() + 1 < n,
    ensures
        exists|j: int| 0 <= j <= appends.len() && replay_after(appends, n) == appends.skip(j),
    decreases appends.len(),
{
    if appends.len() == 0 {
        assert(appends.skip(0) =~= Seq::<Seq<u8>>::empty());
        assert(replay_after(appends, n) == appends.skip(0));
    } else {
        let front = appends.drop_last();
        let last = appends.last();
        lemma_replay_preserves_order(front, n);
        let j = choose|j: int| 0 <= j <= front.len() && replay_after(front, n) == front.skip(j);
        lemma_append_model_shape(front.skip(j), last, n);
        if append_model(front.skip(j), last, n) == Seq::<Seq<u8>>::empty() {
            assert(appends.skip(appends.len() as int) =~= Seq::<Seq<u8>>::empty());
            assert(replay_after(appends, n) == appends.skip(appends.len() as int));
        } else {
            let k = choose|k: int|
                0 <= k <= front.skip(j).len() && append_model(front.skip(j), last, n) == front.skip(
                    j,
                ).skip(k).push(last);
            assert(front.skip(j).skip(k) =~= front.skip(j + k));
            assert(front.skip(j + k).push(last) =~= appends.skip(j + k));
            assert(replay_after(appends, n) == appends.skip(j + k));
        }
    }
}

} // verus!
