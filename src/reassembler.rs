//! The frame reassembler: bulk-transfer chunks in, whole packets out.
use crate::bytes::{le_u32, read_u32_le};
use crate::error::QtError;
use vstd::prelude::*;

verus! {

/// The length that the header of `b` claims.
pub open spec fn claimed_len(b: Seq<u8>) -> int {
    le_u32(b.subrange(0, 4)) as int
}

/// The whole packets at the start of `b`, in order, and the bytes left over.
/// A header that claims fewer than four bytes is an error.
pub open spec fn split_frames(b: Seq<u8>) -> Result<(Seq<Seq<u8>>, Seq<u8>), QtError>
    decreases b.len(),
{
    if b.len() < 4 {
        Ok((Seq::empty(), b))
    } else if claimed_len(b) < 4 {
        Err(QtError::InvalidValue)
    } else if b.len() < claimed_len(b) {
        Ok((Seq::empty(), b))
    } else {
        match split_frames(b.subrange(claimed_len(b), b.len() as int)) {
            Err(e) => Err(e),
            Ok((ps, r)) => Ok((seq![b.subrange(0, claimed_len(b))] + ps, r)),
        }
    }
}

/// The chunks of `s`, one after the other.
pub open spec fn concat_all(s: Seq<Seq<u8>>) -> Seq<u8>
    decreases s.len(),
{
    if s.len() == 0 {
        Seq::empty()
    } else {
        s[0] + concat_all(s.subrange(1, s.len() as int))
    }
}

/// What feeding `chunks` one by one to a reassembler holding `pool` yields:
/// the packets, in order, and what is left in the pool.
pub open spec fn feed_all(pool: Seq<u8>, chunks: Seq<Seq<u8>>) -> Result<
    (Seq<Seq<u8>>, Seq<u8>),
    QtError,
>
    decreases chunks.len(),
{
    if chunks.len() == 0 {
        Ok((Seq::empty(), pool))
    } else {
        match split_frames(pool + chunks[0]) {
            Err(e) => Err(e),
            Ok((ps, r)) => match feed_all(r, chunks.subrange(1, chunks.len() as int)) {
                Err(e) => Err(e),
                Ok((qs, r2)) => Ok((ps + qs, r2)),
            },
        }
    }
}

/// A packet whose header holds its own length.
pub open spec fn is_frame(p: Seq<u8>) -> bool {
    p.len() >= 4 && claimed_len(p) == p.len()
}

/// Splitting `a + c` splits `a`, then what `a` left over followed by `c`.
pub proof fn lemma_split_append(a: Seq<u8>, c: Seq<u8>)
    ensures
        split_frames(a + c) == match split_frames(a) {
            Err(e) => Err(e),
            Ok((ps, r)) => match split_frames(r + c) {
                Err(e) => Err(e),
                Ok((qs, r2)) => Ok((ps + qs, r2)),
            },
        },
    decreases a.len(),
{
    let b = a + c;
    if a.len() >= 4 {
        assert(b.subrange(0, 4) =~= a.subrange(0, 4));
    }
    if a.len() < 4 || claimed_len(a) < 4 || a.len() < claimed_len(a) {
        if let Ok((ps, r)) = split_frames(a) {
            assert(r == a);
            assert(ps + split_frames(r + c)->Ok_0.0 =~= split_frames(r + c)->Ok_0.0);
        }
    } else {
        let n = claimed_len(a);
        let a1 = a.subrange(n, a.len() as int);
        lemma_split_append(a1, c);
        assert(b.subrange(n, b.len() as int) =~= a1 + c);
        assert(b.subrange(0, n) =~= a.subrange(0, n));
        if let Ok((ps1, r1)) = split_frames(a1) {
            if let Ok((qs, r2)) = split_frames(r1 + c) {
                assert(seq![a.subrange(0, n)] + (ps1 + qs) =~= (seq![a.subrange(0, n)] + ps1) + qs);
            }
        }
    }
}

/// Feeding chunks one by one to a pool with no whole packet splits the pool
/// followed by all of them.
pub proof fn lemma_feed_all(pool: Seq<u8>, chunks: Seq<Seq<u8>>)
    requires
        split_frames(pool) == Ok::<(Seq<Seq<u8>>, Seq<u8>), QtError>((Seq::empty(), pool)),
    ensures
        feed_all(pool, chunks) == split_frames(pool + concat_all(chunks)),
    decreases chunks.len(),
{
    if chunks.len() == 0 {
        assert(pool + concat_all(chunks) =~= pool);
    } else {
        let rest = chunks.subrange(1, chunks.len() as int);
        assert(pool + concat_all(chunks) =~= (pool + chunks[0]) + concat_all(rest));
        lemma_split_append(pool + chunks[0], concat_all(rest));
        lemma_split_rest(pool + chunks[0]);
        if let Ok((ps, r)) = split_frames(pool + chunks[0]) {
            lemma_feed_all(r, rest);
        }
    }
}

/// What a split leaves over holds no whole packet.
pub proof fn lemma_split_rest(b: Seq<u8>)
    ensures
        split_frames(b) matches Ok((_, r)) ==> split_frames(r) == Ok::<
            (Seq<Seq<u8>>, Seq<u8>),
            QtError,
        >((Seq::empty(), r)),
    decreases b.len(),
{
    if b.len() >= 4 && claimed_len(b) >= 4 && b.len() >= claimed_len(b) {
        lemma_split_rest(b.subrange(claimed_len(b), b.len() as int));
    }
}

/// Whole packets, one after the other, split back into those packets.
pub proof fn lemma_split_frames_of_packets(packets: Seq<Seq<u8>>)
    requires
        forall|i: int| 0 <= i < packets.len() ==> is_frame(#[trigger] packets[i]),
    ensures
        split_frames(concat_all(packets)) == Ok::<(Seq<Seq<u8>>, Seq<u8>), QtError>(
            (packets, Seq::empty()),
        ),
    decreases packets.len(),
{
    if packets.len() == 0 {
        assert(split_frames(Seq::<u8>::empty()) == Ok::<(Seq<Seq<u8>>, Seq<u8>), QtError>(
            (Seq::empty(), Seq::empty()),
        ));
        assert(packets =~= Seq::<Seq<u8>>::empty());
    } else {
        let p = packets[0];
        let rest = packets.subrange(1, packets.len() as int);
        assert forall|i: int| 0 <= i < rest.len() implies is_frame(#[trigger] rest[i]) by {
            assert(rest[i] == packets[i + 1]);
        }
        lemma_split_frames_of_packets(rest);
        let b = concat_all(packets);
        assert(b == p + concat_all(rest));
        assert(b.subrange(0, 4) =~= p.subrange(0, 4));
        assert(b.subrange(0, p.len() as int) =~= p);
        assert(b.subrange(p.len() as int, b.len() as int) =~= concat_all(rest));
        assert(seq![p] + rest =~= packets);
    }
}

/// Packets cut into chunks at arbitrary places come out of the reassembler
/// whole and in order, with nothing left over.
pub proof fn lemma_reassembly(packets: Seq<Seq<u8>>, chunks: Seq<Seq<u8>>)
    requires
        forall|i: int| 0 <= i < packets.len() ==> is_frame(#[trigger] packets[i]),
        concat_all(chunks) == concat_all(packets),
    ensures
        feed_all(Seq::empty(), chunks) == Ok::<(Seq<Seq<u8>>, Seq<u8>), QtError>(
            (packets, Seq::empty()),
        ),
{
    assert(split_frames(Seq::<u8>::empty()) == Ok::<(Seq<Seq<u8>>, Seq<u8>), QtError>(
        (Seq::empty(), Seq::empty()),
    ));
    lemma_feed_all(Seq::empty(), chunks);
    assert(Seq::<u8>::empty() + concat_all(chunks) =~= concat_all(packets));
    lemma_split_frames_of_packets(packets);
}

/// Collects bulk-transfer chunks and cuts whole packets out of them.
#[derive(Debug)]
pub struct Reassembler {
    pool: Vec<u8>,
}

impl View for Reassembler {
    type V = Seq<u8>;

    closed spec fn view(&self) -> Seq<u8> {
        self.pool@
    }
}

/// The bytes `d[from..to]`.
fn slice_of(d: &Vec<u8>, from: usize, to: usize) -> (r: Vec<u8>)
    requires
        from <= to <= d@.len(),
    ensures
        r@ == d@.subrange(from as int, to as int),
{
    let mut out: Vec<u8> = Vec::new();
    let mut i = from;
    while i < to
        invariant
            from <= i <= to <= d@.len(),
            out@ == d@.subrange(from as int, i as int),
        decreases to - i,
    {
        out.push(d[i]);
        i = i + 1;
        assert(out@ =~= d@.subrange(from as int, i as int));
    }
    out
}

impl Reassembler {
    /// A reassembler with an empty pool.
    pub fn new() -> (r: Reassembler)
        ensures
            r@ == Seq::<u8>::empty(),
    {
        Reassembler { pool: Vec::new() }
    }

    /// Appends `chunk` to the pool and cuts out every whole packet, in
    /// order; what is left stays in the pool. On a header that claims fewer
    /// than four bytes the pool is left as it was.
    pub fn feed(&mut self, chunk: &[u8]) -> (r: Result<Vec<Vec<u8>>, QtError>)
        ensures
            match split_frames(old(self)@ + chunk@) {
                Ok((ps, rest)) => r is Ok && r->Ok_0@.map_values(|p: Vec<u8>| p@) == ps
                    && final(self)@ == rest,
                Err(e) => r == Err::<Vec<Vec<u8>>, QtError>(e) && final(self)@ == old(self)@,
            },
    {
        let mut all = self.pool.clone();
        crate::bytes::push_all(&mut all, chunk);
        assert(all@ =~= old(self)@ + chunk@);
        let ghost whole = all@;
        let mut out: Vec<Vec<u8>> = Vec::new();
        let mut at: usize = 0;
        proof {
            assert(all@.subrange(0, all@.len() as int) =~= whole);
            assert(out@.map_values(|p: Vec<u8>| p@) =~= Seq::<Seq<u8>>::empty());
            if let Ok((ps, r)) = split_frames(whole) {
                assert(Seq::<Seq<u8>>::empty() + ps =~= ps);
            }
        }
        loop
            invariant
                at <= all@.len(),
                all@ == whole,
                whole == old(self)@ + chunk@,
                self.pool@ == old(self)@,
                split_frames(whole) == match split_frames(all@.subrange(at as int, all@.len() as int)) {
                    Err(e) => Err(e),
                    Ok((ps, r)) => Ok((out@.map_values(|p: Vec<u8>| p@) + ps, r)),
                },
            ensures
                at <= all@.len(),
                all@ == whole,
                self.pool@ == old(self)@,
                split_frames(whole) == Ok::<(Seq<Seq<u8>>, Seq<u8>), QtError>(
                    (out@.map_values(|p: Vec<u8>| p@), all@.subrange(at as int, all@.len() as int)),
                ),
            decreases all@.len() - at,
        {
            let ghost cur = all@.subrange(at as int, all@.len() as int);
            if all.len() - at < 4 {
                assert(out@.map_values(|q: Vec<u8>| q@) + Seq::<Seq<u8>>::empty() =~= out@.map_values(|q: Vec<u8>| q@));
                break;
            }
            let want = read_u32_le(all.as_slice(), at) as usize;
            assert(cur.subrange(0, 4) =~= all@.subrange(at as int, at + 4));
            if want < 4 {
                return Err(QtError::InvalidValue);
            }
            if all.len() - at < want {
                assert(out@.map_values(|q: Vec<u8>| q@) + Seq::<Seq<u8>>::empty() =~= out@.map_values(|q: Vec<u8>| q@));
                break;
            }
            let p = slice_of(&all, at, at + want);
            proof {
                assert(p@ =~= cur.subrange(0, want as int));
                assert(cur.subrange(want as int, cur.len() as int) =~= all@.subrange(at + want, all@.len() as int));
                let m = out@.map_values(|q: Vec<u8>| q@);
                assert(out@.push(p).map_values(|q: Vec<u8>| q@) =~= m.push(p@));
                if let Ok((ps, r)) = split_frames(all@.subrange(at + want, all@.len() as int)) {
                    assert(m.push(p@) + ps =~= m + (seq![p@] + ps));
                }
            }
            out.push(p);
            at = at + want;
        }
        let rest = slice_of(&all, at, all.len());
        self.pool = rest;
        Ok(out)
    }
}

} // verus!
