//! Fingerprint persistence: the byte format of the append-only log.
//!
//! Each record is a self-describing frame identifying an edge by its
//! canonical output paths (in-memory ids are run-local) and carrying the
//! fingerprint persisted after the edge last executed successfully.  Frame
//! layout, every word a little-endian u64: the number of paths; then, for
//! each path, its byte length followed by its bytes; then the fingerprint.
//!
//! The writer appends one frame after each successful execution and flushes
//! it before any dependent decision is made; the reader replays the log at
//! startup and keeps, for each edge, the last record.  A truncated or
//! garbled tail decodes as "no further record", so tail corruption recovers
//! by ignoring the tail.

use vstd::bytes::{
    lemma_auto_spec_u64_to_from_le_bytes, spec_u64_from_le_bytes, spec_u64_to_le_bytes,
    u64_from_le_bytes, u64_to_le_bytes,
};
use vstd::prelude::*;
use vstd::slice::{slice_subrange, slice_to_vec};

verus! {

/// One persisted record: an edge's canonical output paths and its
/// fingerprint.
pub struct Record {
    pub outs: Vec<Vec<u8>>,
    pub hash: crate::graph::Hash,
}

impl Record {
    /// The output paths as byte sequences.
    pub open spec fn paths(&self) -> Seq<Seq<u8>> {
        self.outs.deep_view()
    }
}

/// The frame bytes of the paths section: each path is its length word
/// followed by its bytes.
pub open spec fn paths_bytes(paths: Seq<Seq<u8>>) -> Seq<u8>
    decreases paths.len(),
{
    if paths.len() == 0 {
        Seq::empty()
    } else {
        spec_u64_to_le_bytes(paths.first().len() as u64) + paths.first() + paths_bytes(
            paths.drop_first(),
        )
    }
}

/// The frame bytes of one whole record.
pub open spec fn record_bytes(paths: Seq<Seq<u8>>, hash: u64) -> Seq<u8> {
    spec_u64_to_le_bytes(paths.len() as u64) + paths_bytes(paths) + spec_u64_to_le_bytes(hash)
}

proof fn lemma_paths_bytes_push(paths: Seq<Seq<u8>>, p: Seq<u8>)
    ensures
        paths_bytes(paths.push(p)) == paths_bytes(paths) + spec_u64_to_le_bytes(p.len() as u64)
            + p,
    decreases paths.len(),
{
    let pushed = paths.push(p);
    assert(pushed.len() == paths.len() + 1);
    if paths.len() == 0 {
        assert(pushed.first() == p);
        assert(pushed.drop_first() =~= Seq::<Seq<u8>>::empty());
        assert(paths_bytes(pushed.drop_first()) == Seq::<u8>::empty());
        assert(paths_bytes(pushed) == spec_u64_to_le_bytes(pushed.first().len() as u64)
            + pushed.first() + paths_bytes(pushed.drop_first()));
        assert(paths_bytes(paths) == Seq::<u8>::empty());
        assert(paths_bytes(pushed) =~= paths_bytes(paths) + spec_u64_to_le_bytes(p.len() as u64)
            + p);
    } else {
        assert(pushed.first() == paths.first());
        assert(pushed.drop_first() =~= paths.drop_first().push(p));
        lemma_paths_bytes_push(paths.drop_first(), p);
        assert(paths_bytes(pushed) == spec_u64_to_le_bytes(pushed.first().len() as u64)
            + pushed.first() + paths_bytes(pushed.drop_first()));
        assert(paths_bytes(paths) == spec_u64_to_le_bytes(paths.first().len() as u64)
            + paths.first() + paths_bytes(paths.drop_first()));
        assert(paths_bytes(pushed) =~= paths_bytes(paths) + spec_u64_to_le_bytes(p.len() as u64)
            + p);
    }
}

/// No whole well-formed frame starts at `pos`: no prefix of the remaining
/// bytes is `record_bytes` of anything.
pub open spec fn no_frame_at(data: Seq<u8>, pos: int) -> bool {
    forall|paths: Seq<Seq<u8>>, hash: u64, end: int|
        #![trigger data.subrange(pos, end), record_bytes(paths, hash)]
        pos <= end <= data.len() ==> data.subrange(pos, end) != record_bytes(paths, hash)
}

proof fn lemma_paths_bytes_len(paths: Seq<Seq<u8>>)
    ensures
        paths_bytes(paths).len() >= 8 * paths.len(),
        forall|i: int| 0 <= i < paths.len() ==> (#[trigger] paths[i]).len() <= paths_bytes(
            paths,
        ).len(),
    decreases paths.len(),
{
    lemma_auto_spec_u64_to_from_le_bytes();
    if paths.len() > 0 {
        lemma_paths_bytes_len(paths.drop_first());
        assert forall|i: int| 0 <= i < paths.len()
            implies (#[trigger] paths[i]).len() <= paths_bytes(paths).len() by {
            if i > 0 {
                assert(paths.drop_first()[i - 1] == paths[i]);
            }
        }
    }
}

proof fn lemma_paths_bytes_split(paths: Seq<Seq<u8>>, k: int)
    requires
        0 <= k <= paths.len(),
    ensures
        paths_bytes(paths) == paths_bytes(paths.take(k)) + paths_bytes(paths.skip(k)),
    decreases k,
{
    if k == 0 {
        assert(paths.take(0) =~= Seq::<Seq<u8>>::empty());
        assert(paths.skip(0) =~= paths);
        assert(paths_bytes(paths.take(0)) == Seq::<u8>::empty());
        assert(paths_bytes(paths) =~= paths_bytes(paths.take(0)) + paths_bytes(paths.skip(0)));
    } else {
        let d = paths.drop_first();
        lemma_paths_bytes_split(d, k - 1);
        assert(paths.take(k).first() == paths.first());
        assert(paths.take(k).drop_first() =~= d.take(k - 1));
        assert(paths.skip(k) =~= d.skip(k - 1));
        assert(paths_bytes(paths.take(k)) == spec_u64_to_le_bytes(paths.first().len() as u64)
            + paths.first() + paths_bytes(d.take(k - 1)));
        assert(paths_bytes(paths) =~= paths_bytes(paths.take(k)) + paths_bytes(paths.skip(k)));
    }
}

/// Any whole frame found in `data` agrees with a partial parse that has
/// consumed the count word and `q.len()` whole paths: the frame's count is
/// the parsed count, its first paths are the parsed paths, and the bytes
/// from the parse position on are the rest of the frame followed by the
/// rest of the data.
proof fn lemma_frame_alignment(
    data: Seq<u8>,
    start: int,
    off: int,
    cnt64: u64,
    q: Seq<Seq<u8>>,
    p: Seq<Seq<u8>>,
    h: u64,
    end: int,
)
    requires
        data.len() <= usize::MAX,
        0 <= start,
        start + 8 <= off <= data.len(),
        start <= end <= data.len(),
        data.subrange(start, off) == spec_u64_to_le_bytes(cnt64) + paths_bytes(q),
        data.subrange(start, end) == record_bytes(p, h),
        q.len() <= cnt64,
        forall|i: int| 0 <= i < q.len() ==> (#[trigger] q[i]).len() <= u64::MAX,
    ensures
        p.len() == cnt64,
        p.len() <= usize::MAX,
        q.len() <= p.len(),
        p.take(q.len() as int) =~~= q,
        data.subrange(off, data.len() as int) == paths_bytes(p.skip(q.len() as int))
            + spec_u64_to_le_bytes(h) + data.subrange(end, data.len() as int),
{
    lemma_auto_spec_u64_to_from_le_bytes();
    lemma_paths_bytes_len(p);
    let m = data.len() as int;
    let k = q.len() as int;
    let a = data.subrange(start, m);
    assert(a =~= data.subrange(start, off) + data.subrange(off, m));
    assert(a =~= data.subrange(start, end) + data.subrange(end, m));
    let w1 = spec_u64_to_le_bytes(cnt64);
    let w2 = spec_u64_to_le_bytes(p.len() as u64);
    let r1 = paths_bytes(q) + data.subrange(off, m);
    let r2 = paths_bytes(p) + spec_u64_to_le_bytes(h) + data.subrange(end, m);
    assert(w1 + r1 =~= a);
    assert(w2 + r2 =~= a);
    lemma_concat_split(w1, r1, w2, r2);
    assert(spec_u64_from_le_bytes(w1) == cnt64);
    assert(spec_u64_from_le_bytes(w2) == p.len() as u64);
    // the frame fits in the data, so its path count suffers no truncation
    assert(record_bytes(p, h).len() == end - start);
    assert(8 * p.len() <= paths_bytes(p).len());
    assert(paths_bytes(p).len() == end - start - 16);
    assert(p.len() <= usize::MAX);
    assert(p.len() == cnt64);
    lemma_paths_bytes_split(p, k);
    assert forall|i: int| 0 <= i < k implies (#[trigger] p.take(k)[i]).len() <= u64::MAX by {
        assert(p.take(k)[i] == p[i]);
        assert(p[i].len() <= paths_bytes(p).len());
    }
    let rest2 = paths_bytes(p.skip(k)) + spec_u64_to_le_bytes(h) + data.subrange(end, m);
    assert(paths_bytes(q) + data.subrange(off, m) =~= paths_bytes(p.take(k)) + rest2);
    lemma_paths_bytes_unambiguous(q, data.subrange(off, m), p.take(k), rest2);
}

/// Encode one record as its frame bytes.
pub fn encode_record(r: &Record) -> (out: Vec<u8>)
    ensures
        out@ == record_bytes(r.paths(), r.hash.value()),
{
    let mut buf = u64_to_le_bytes(r.outs.len() as u64);
    let mut i: usize = 0;
    while i < r.outs.len()
        invariant
            0 <= i <= r.outs@.len(),
            r.paths().len() == r.outs@.len(),
            buf@ == spec_u64_to_le_bytes(r.paths().len() as u64) + paths_bytes(
                r.paths().take(i as int),
            ),
        decreases r.outs@.len() - i,
    {
        let plen = r.outs[i].len();
        let mut lb = u64_to_le_bytes(plen as u64);
        buf.append(&mut lb);
        let mut pb = slice_to_vec(r.outs[i].as_slice());
        buf.append(&mut pb);
        proof {
            assert(r.paths()[i as int] == r.outs@[i as int]@);
            assert(r.paths().take(i as int + 1) =~= r.paths().take(i as int).push(
                r.paths()[i as int],
            ));
            lemma_paths_bytes_push(r.paths().take(i as int), r.paths()[i as int]);
        }
        i += 1;
    }
    proof {
        assert(r.paths().take(r.outs@.len() as int) =~= r.paths());
    }
    let mut hb = u64_to_le_bytes(r.hash.stored());
    buf.append(&mut hb);
    buf
}

/// Decode the record whose frame starts at `start`.  On success the
/// returned record re-encodes to exactly the bytes consumed, so what
/// `encode_record` appended is read back as written; `None` is returned
/// exactly when no whole well-formed frame starts at `start`.
#[verifier::rlimit(60)]
pub fn decode_record(data: &[u8], start: usize) -> (r: Option<(Record, usize)>)
    requires
        start <= data@.len(),
    ensures
        match r {
            Some((rec, next)) => {
                &&& start < next <= data@.len()
                &&& data@.subrange(start as int, next as int) == record_bytes(
                    rec.paths(),
                    rec.hash.value(),
                )
            },
            None => no_frame_at(data@, start as int),
        },
{
    proof {
        lemma_auto_spec_u64_to_from_le_bytes();
    }
    if data.len() - start < 8 {
        proof {
            assert forall|paths: Seq<Seq<u8>>, hash: u64, end: int|
                #![trigger data@.subrange(start as int, end), record_bytes(paths, hash)]
                start as int <= end <= data@.len()
                implies data@.subrange(start as int, end) != record_bytes(paths, hash) by {
                if data@.subrange(start as int, end) == record_bytes(paths, hash) {
                    assert(record_bytes(paths, hash).len() >= 16);
                    assert(end - start < 8);
                }
            }
            assert(no_frame_at(data@, start as int));
        }
        return None;
    }
    let count64 = u64_from_le_bytes(slice_subrange(data, start, start + 8));
    if count64 > (usize::MAX as u64) {
        proof {
            assert(spec_u64_to_le_bytes(spec_u64_from_le_bytes(data@.subrange(
                start as int,
                start as int + 8,
            ))) == data@.subrange(start as int, start as int + 8));
            assert(paths_bytes(Seq::<Seq<u8>>::empty()) == Seq::<u8>::empty());
            assert(data@.subrange(start as int, start as int + 8) =~= spec_u64_to_le_bytes(count64)
                + paths_bytes(Seq::<Seq<u8>>::empty()));
            assert forall|paths: Seq<Seq<u8>>, hash: u64, end: int|
                #![trigger data@.subrange(start as int, end), record_bytes(paths, hash)]
                start as int <= end <= data@.len()
                implies data@.subrange(start as int, end) != record_bytes(paths, hash) by {
                if data@.subrange(start as int, end) == record_bytes(paths, hash) {
                    lemma_frame_alignment(
                        data@,
                        start as int,
                        start as int + 8,
                        count64,
                        Seq::<Seq<u8>>::empty(),
                        paths,
                        hash,
                        end,
                    );
                    assert(paths.len() == count64 && paths.len() <= usize::MAX);
                }
            }
            assert(no_frame_at(data@, start as int));
        }
        return None;
    }
    let count = count64 as usize;
    let mut off: usize = start + 8;
    let mut outs: Vec<Vec<u8>> = Vec::new();
    proof {
        assert(data@.subrange(start as int, off as int) =~= spec_u64_to_le_bytes(count64));
        assert(paths_bytes(outs.deep_view()) =~= Seq::<u8>::empty());
        assert(data@.subrange(start as int, off as int) =~= spec_u64_to_le_bytes(count as u64)
            + paths_bytes(outs.deep_view()));
    }
    let mut k: usize = 0;
    while k < count
        invariant
            start + 8 <= off <= data@.len(),
            data@.len() <= usize::MAX,
            outs.deep_view().len() == k,
            0 <= k <= count,
            forall|i: int| 0 <= i < k ==> (#[trigger] outs.deep_view()[i]).len() <= u64::MAX,
            data@.subrange(start as int, off as int) == spec_u64_to_le_bytes(count as u64)
                + paths_bytes(outs.deep_view()),
        decreases count - k,
    {
        if data.len() - off < 8 {
            proof {
                lemma_auto_spec_u64_to_from_le_bytes();
                assert forall|paths: Seq<Seq<u8>>, hash: u64, end: int|
                    #![trigger data@.subrange(start as int, end), record_bytes(paths, hash)]
                    start as int <= end <= data@.len()
                    implies data@.subrange(start as int, end) != record_bytes(paths, hash) by {
                    if data@.subrange(start as int, end) == record_bytes(paths, hash) {
                        lemma_frame_alignment(
                            data@,
                            start as int,
                            off as int,
                            count as u64,
                            outs.deep_view(),
                            paths,
                            hash,
                            end,
                        );
                        assert(paths.len() == count);
                        let sk = paths.skip(k as int);
                        assert(sk.len() >= 1);
                        lemma_paths_bytes_len(sk);
                        assert(data@.subrange(off as int, data@.len() as int).len() >= 16);
                    }
                }
                assert(no_frame_at(data@, start as int));
            }
            return None;
        }
        let len64 = u64_from_le_bytes(slice_subrange(data, off, off + 8));
        let avail = data.len() - off - 8;
        if len64 > (avail as u64) {
            proof {
                lemma_auto_spec_u64_to_from_le_bytes();
                assert forall|paths: Seq<Seq<u8>>, hash: u64, end: int|
                    #![trigger data@.subrange(start as int, end), record_bytes(paths, hash)]
                    start as int <= end <= data@.len()
                    implies data@.subrange(start as int, end) != record_bytes(paths, hash) by {
                    if data@.subrange(start as int, end) == record_bytes(paths, hash) {
                        let m = data@.len() as int;
                        lemma_frame_alignment(
                            data@,
                            start as int,
                            off as int,
                            count as u64,
                            outs.deep_view(),
                            paths,
                            hash,
                            end,
                        );
                        assert(paths.len() == count);
                        let sk = paths.skip(k as int);
                        assert(sk.len() >= 1);
                        lemma_paths_bytes_len(sk.drop_first());
                        let word = spec_u64_to_le_bytes(sk.first().len() as u64);
                        let rest = sk.first() + paths_bytes(sk.drop_first())
                            + spec_u64_to_le_bytes(hash) + data@.subrange(end, m);
                        assert(word + rest =~= data@.subrange(off as int, m));
                        assert(data@.subrange(off as int, m) =~= data@.subrange(
                            off as int,
                            off as int + 8,
                        ) + data@.subrange(off as int + 8, m));
                        lemma_concat_split(
                            word,
                            rest,
                            data@.subrange(off as int, off as int + 8),
                            data@.subrange(off as int + 8, m),
                        );
                        assert(spec_u64_from_le_bytes(word) == sk.first().len() as u64);
                        assert(len64 == sk.first().len() as u64);
                        assert(sk.first() == paths[k as int]);
                        lemma_paths_bytes_len(paths);
                        assert(paths[k as int].len() <= paths_bytes(paths).len());
                        assert(paths_bytes(paths).len() <= m);
                        assert(len64 == sk.first().len());
                        assert(m - off - 8 >= sk.first().len() + 8);
                        assert(avail >= len64 + 8);
                    }
                }
                assert(no_frame_at(data@, start as int));
            }
            return None;
        }
        let plen = len64 as usize;
        let path = slice_to_vec(slice_subrange(data, off + 8, off + 8 + plen));
        let ghost pre_paths = outs.deep_view();
        outs.push(path);
        proof {
            lemma_auto_spec_u64_to_from_le_bytes();
            assert(spec_u64_to_le_bytes(spec_u64_from_le_bytes(data@.subrange(
                off as int,
                off as int + 8,
            ))) == data@.subrange(off as int, off as int + 8));
            assert(outs.deep_view() =~~= pre_paths.push(data@.subrange(
                off as int + 8,
                off as int + 8 + plen as int,
            )));
            lemma_paths_bytes_push(
                pre_paths,
                data@.subrange(off as int + 8, off as int + 8 + plen as int),
            );
            assert(data@.subrange(off as int, off as int + 8) =~= spec_u64_to_le_bytes(len64));
            assert(plen as u64 == len64);
            assert(data@.subrange(start as int, off as int + 8 + plen as int)
                =~= data@.subrange(start as int, off as int) + data@.subrange(
                off as int,
                off as int + 8,
            ) + data@.subrange(off as int + 8, off as int + 8 + plen as int));
        }
        off = off + 8 + plen;
        k += 1;
    }
    if data.len() - off < 8 {
        proof {
            lemma_auto_spec_u64_to_from_le_bytes();
            assert forall|paths: Seq<Seq<u8>>, hash: u64, end: int|
                #![trigger data@.subrange(start as int, end), record_bytes(paths, hash)]
                start as int <= end <= data@.len()
                implies data@.subrange(start as int, end) != record_bytes(paths, hash) by {
                if data@.subrange(start as int, end) == record_bytes(paths, hash) {
                    lemma_frame_alignment(
                        data@,
                        start as int,
                        off as int,
                        count as u64,
                        outs.deep_view(),
                        paths,
                        hash,
                        end,
                    );
                    assert(paths.len() == count);
                    assert(paths.skip(count as int) =~= Seq::<Seq<u8>>::empty());
                    assert(paths_bytes(paths.skip(count as int)) == Seq::<u8>::empty());
                    assert(data@.subrange(off as int, data@.len() as int).len() >= 8);
                }
            }
            assert(no_frame_at(data@, start as int));
        }
        return None;
    }
    let h64 = u64_from_le_bytes(slice_subrange(data, off, off + 8));
    let next = off + 8;
    let rec = Record { outs, hash: crate::graph::Hash::from_stored(h64) };
    proof {
        lemma_auto_spec_u64_to_from_le_bytes();
        assert(spec_u64_to_le_bytes(spec_u64_from_le_bytes(data@.subrange(
            off as int,
            next as int,
        ))) == data@.subrange(off as int, next as int));
        assert(rec.paths().len() == count);
        assert(data@.subrange(off as int, next as int) =~= spec_u64_to_le_bytes(h64));
        assert(data@.subrange(start as int, next as int) =~= data@.subrange(
            start as int,
            off as int,
        ) + data@.subrange(off as int, next as int));
        assert(data@.subrange(start as int, next as int) =~= record_bytes(
            rec.paths(),
            rec.hash.value(),
        ));
    }
    Some((rec, next))
}

proof fn lemma_concat_split(a: Seq<u8>, b: Seq<u8>, c: Seq<u8>, d: Seq<u8>)
    requires
        a + b == c + d,
        a.len() == c.len(),
    ensures
        a == c,
        b == d,
{
    assert(a =~= (a + b).subrange(0, a.len() as int));
    assert(c =~= (c + d).subrange(0, c.len() as int));
    assert(b =~= (a + b).subrange(a.len() as int, (a + b).len() as int));
    assert(d =~= (c + d).subrange(c.len() as int, (c + d).len() as int));
}

proof fn lemma_paths_bytes_unambiguous(p1: Seq<Seq<u8>>, r1: Seq<u8>, p2: Seq<Seq<u8>>, r2: Seq<u8>)
    requires
        p1.len() == p2.len(),
        forall|i: int| 0 <= i < p1.len() ==> (#[trigger] p1[i]).len() <= u64::MAX,
        forall|i: int| 0 <= i < p2.len() ==> (#[trigger] p2[i]).len() <= u64::MAX,
        paths_bytes(p1) + r1 == paths_bytes(p2) + r2,
    ensures
        p1 =~~= p2,
        r1 == r2,
    decreases p1.len(),
{
    lemma_auto_spec_u64_to_from_le_bytes();
    if p1.len() == 0 {
        assert(paths_bytes(p1) == Seq::<u8>::empty());
        assert(paths_bytes(p2) == Seq::<u8>::empty());
        assert(r1 =~= paths_bytes(p1) + r1);
        assert(r2 =~= paths_bytes(p2) + r2);
    } else {
        let w1 = spec_u64_to_le_bytes(p1.first().len() as u64);
        let w2 = spec_u64_to_le_bytes(p2.first().len() as u64);
        let rest1 = p1.first() + (paths_bytes(p1.drop_first()) + r1);
        let rest2 = p2.first() + (paths_bytes(p2.drop_first()) + r2);
        assert(w1 + rest1 =~= paths_bytes(p1) + r1);
        assert(w2 + rest2 =~= paths_bytes(p2) + r2);
        lemma_concat_split(w1, rest1, w2, rest2);
        assert(spec_u64_from_le_bytes(w1) == p1.first().len() as u64);
        assert(spec_u64_from_le_bytes(w2) == p2.first().len() as u64);
        assert(p1.first().len() == p2.first().len());
        lemma_concat_split(
            p1.first(),
            paths_bytes(p1.drop_first()) + r1,
            p2.first(),
            paths_bytes(p2.drop_first()) + r2,
        );
        assert forall|i: int| 0 <= i < p1.drop_first().len()
            implies (#[trigger] p1.drop_first()[i]).len() <= u64::MAX by {
            assert(p1.drop_first()[i] == p1[i + 1]);
        }
        assert forall|i: int| 0 <= i < p2.drop_first().len()
            implies (#[trigger] p2.drop_first()[i]).len() <= u64::MAX by {
            assert(p2.drop_first()[i] == p2[i + 1]);
        }
        lemma_paths_bytes_unambiguous(p1.drop_first(), r1, p2.drop_first(), r2);
        assert forall|i: int| 0 <= i < p1.len() implies p1[i] =~= p2[i] by {
            if i == 0 {
                assert(p1.first() == p2.first());
            } else {
                assert(p1.drop_first()[i - 1] =~= p2.drop_first()[i - 1]);
            }
        }
    }
}

/// The frame format is unambiguous: a frame followed by arbitrary further
/// log bytes determines the record and the remainder.  Together with
/// `encode_record` and `decode_record` this says that a fingerprint
/// appended to the log is read back exactly as it was written, whatever
/// follows it.
pub proof fn lemma_record_bytes_unambiguous(
    p1: Seq<Seq<u8>>,
    h1: u64,
    t1: Seq<u8>,
    p2: Seq<Seq<u8>>,
    h2: u64,
    t2: Seq<u8>,
)
    requires
        p1.len() <= u64::MAX,
        p2.len() <= u64::MAX,
        forall|i: int| 0 <= i < p1.len() ==> (#[trigger] p1[i]).len() <= u64::MAX,
        forall|i: int| 0 <= i < p2.len() ==> (#[trigger] p2[i]).len() <= u64::MAX,
        record_bytes(p1, h1) + t1 == record_bytes(p2, h2) + t2,
    ensures
        p1 =~~= p2,
        h1 == h2,
        t1 == t2,
{
    lemma_auto_spec_u64_to_from_le_bytes();
    let c1 = spec_u64_to_le_bytes(p1.len() as u64);
    let c2 = spec_u64_to_le_bytes(p2.len() as u64);
    let body1 = paths_bytes(p1) + (spec_u64_to_le_bytes(h1) + t1);
    let body2 = paths_bytes(p2) + (spec_u64_to_le_bytes(h2) + t2);
    assert(c1 + body1 =~= record_bytes(p1, h1) + t1);
    assert(c2 + body2 =~= record_bytes(p2, h2) + t2);
    lemma_concat_split(c1, body1, c2, body2);
    assert(spec_u64_from_le_bytes(c1) == p1.len() as u64);
    assert(spec_u64_from_le_bytes(c2) == p2.len() as u64);
    assert(p1.len() == p2.len());
    lemma_paths_bytes_unambiguous(
        p1,
        spec_u64_to_le_bytes(h1) + t1,
        p2,
        spec_u64_to_le_bytes(h2) + t2,
    );
    lemma_concat_split(spec_u64_to_le_bytes(h1), t1, spec_u64_to_le_bytes(h2), t2);
    assert(spec_u64_from_le_bytes(spec_u64_to_le_bytes(h1)) == h1);
    assert(spec_u64_from_le_bytes(spec_u64_to_le_bytes(h2)) == h2);
}

/// `cuts` certifies that `recs` are the frames of a prefix of `data`, laid
/// end to end from the start; bytes from `cuts.last()` on are ignored tail.
pub open spec fn cuts_ok(data: Seq<u8>, recs: Seq<Record>, cuts: Seq<int>) -> bool {
    &&& cuts.len() == recs.len() + 1
    &&& cuts.len() > 0 ==> cuts[0] == 0
    &&& forall|i: int| 0 <= i < cuts.len() ==> 0 <= #[trigger] cuts[i] <= data.len()
    &&& forall|i: int|
        0 <= i < recs.len() ==> cuts[i] <= cuts[i + 1] && data.subrange(#[trigger] cuts[i], cuts[i + 1])
            == record_bytes(recs[i].paths(), recs[i].hash.value())
}

/// Replay the log: decode records from the front until the bytes run out
/// or the tail holds no whole well-formed frame.  The certificate is
/// maximal: past its last cut no whole frame remains, so tail corruption
/// is recovered by ignoring exactly the unreadable tail and nothing is
/// read short.
pub fn decode_log(data: &[u8]) -> (r: Vec<Record>)
    ensures
        exists|cuts: Seq<int>|
            #[trigger] cuts_ok(data@, r@, cuts) && no_frame_at(data@, cuts.last()),
{
    let mut records: Vec<Record> = Vec::new();
    let mut off: usize = 0;
    let ghost mut cuts: Seq<int> = seq![0int];
    proof {
        assert(cuts_ok(data@, records@, cuts));
    }
    loop
        invariant
            0 <= off <= data@.len(),
            cuts.len() == records@.len() + 1,
            cuts.last() == off as int,
            cuts_ok(data@, records@, cuts),
        decreases data@.len() - off,
    {
        match decode_record(data, off) {
            None => {
                proof {
                    assert(cuts_ok(data@, records@, cuts));
                    assert(no_frame_at(data@, cuts.last()));
                }
                return records;
            },
            Some((rec, next)) => {
                records.push(rec);
                off = next;
                proof {
                    let prev = cuts;
                    cuts = cuts.push(next as int);
                    assert forall|i: int| 0 <= i < records@.len()
                        implies cuts[i] <= cuts[i + 1] && data@.subrange(
                        #[trigger] cuts[i],
                        cuts[i + 1],
                    ) == record_bytes(records@[i].paths(), records@[i].hash.value()) by {
                        if i < records@.len() - 1 {
                            assert(cuts[i] == prev[i] && cuts[i + 1] == prev[i + 1]);
                            assert(records@[i] == records@.subrange(0, records@.len() - 1)[i]);
                        }
                    }
                }
            },
        }
    }
}

/// Byte-for-byte equality of two paths.
fn bytes_eq(a: &Vec<u8>, b: &Vec<u8>) -> (r: bool)
    ensures
        r == (a@ == b@),
{
    if a.len() != b.len() {
        return false;
    }
    let mut i: usize = 0;
    while i < a.len()
        invariant
            a@.len() == b@.len(),
            0 <= i <= a@.len(),
            forall|k: int| 0 <= k < i ==> a@[k] == b@[k],
        decreases a@.len() - i,
    {
        if a[i] != b[i] {
            return false;
        }
        i += 1;
    }
    proof {
        assert(a@ =~= b@);
    }
    true
}

/// Equality of two output path lists, path by path.
fn paths_eq(a: &Vec<Vec<u8>>, b: &Vec<Vec<u8>>) -> (r: bool)
    ensures
        r == (a.deep_view() == b.deep_view()),
{
    if a.len() != b.len() {
        proof {
            assert(a.deep_view().len() != b.deep_view().len());
        }
        return false;
    }
    let mut i: usize = 0;
    while i < a.len()
        invariant
            a@.len() == b@.len(),
            a.deep_view().len() == a@.len(),
            b.deep_view().len() == b@.len(),
            0 <= i <= a@.len(),
            forall|k: int| 0 <= k < i ==> a.deep_view()[k] == b.deep_view()[k],
        decreases a@.len() - i,
    {
        if !bytes_eq(&a[i], &b[i]) {
            proof {
                assert(a.deep_view()[i as int] == a@[i as int]@);
                assert(b.deep_view()[i as int] == b@[i as int]@);
            }
            return false;
        }
        proof {
            assert(a.deep_view()[i as int] == a@[i as int]@);
            assert(b.deep_view()[i as int] == b@[i as int]@);
        }
        i += 1;
    }
    proof {
        assert(a.deep_view() =~~= b.deep_view());
    }
    true
}

/// The fingerprint the replayed log assigns to the edge with output paths
/// `outs`: the hash of the last record with exactly those paths, if any.
pub fn last_hash_for(records: &Vec<Record>, outs: &Vec<Vec<u8>>) -> (r: Option<crate::graph::Hash>)
    ensures
        match r {
            Some(h) => exists|i: int|
                0 <= i < records@.len() && (#[trigger] records@[i]).paths() == outs.deep_view()
                    && h == records@[i].hash && forall|j: int|
                    i < j < records@.len() ==> (#[trigger] records@[j]).paths()
                        != outs.deep_view(),
            None => forall|i: int|
                0 <= i < records@.len() ==> (#[trigger] records@[i]).paths() != outs.deep_view(),
        },
{
    let mut i: usize = records.len();
    while i > 0
        invariant
            0 <= i <= records@.len(),
            forall|j: int| i <= j < records@.len() ==> (#[trigger] records@[j]).paths()
                != outs.deep_view(),
        decreases i,
    {
        i = i - 1;
        if paths_eq(&records[i].outs, outs) {
            return Some(records[i].hash);
        }
    }
    None
}

} // verus!
