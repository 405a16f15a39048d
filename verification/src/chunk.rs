use crate::errors::CodecError;
use vstd::prelude::*;

verus! {

/// The views of a vector of byte chunks.
pub open spec fn chunks_view(v: Seq<Vec<u8>>) -> Seq<Seq<u8>> {
    Seq::new(v.len(), |i: int| v[i]@)
}

/// The chunks of `s` at width `w`: full-width pieces in order, then the
/// shorter remainder, if any.  Empty input yields no chunks.
pub open spec fn chunk_spec(s: Seq<u8>, w: int) -> Seq<Seq<u8>>
    decreases s.len(),
{
    if w <= 0 || s.len() == 0 {
        Seq::empty()
    } else if s.len() <= w {
        seq![s]
    } else {
        seq![s.take(w)] + chunk_spec(s.skip(w), w)
    }
}

/// Chunks joined with `sep` between (not after) each.
pub open spec fn join_spec(chunks: Seq<Seq<u8>>, sep: Seq<u8>) -> Seq<u8>
    decreases chunks.len(),
{
    if chunks.len() == 0 {
        Seq::empty()
    } else if chunks.len() == 1 {
        chunks[0]
    } else {
        chunks[0] + sep + join_spec(chunks.skip(1), sep)
    }
}

/// Appending one chunk extends a join by one separator and that chunk.
pub proof fn lemma_join_push(a: Seq<Seq<u8>>, sep: Seq<u8>, c: Seq<u8>)
    ensures
        a.len() == 0 ==> join_spec(a.push(c), sep) == c,
        a.len() > 0 ==> join_spec(a.push(c), sep) == join_spec(a, sep) + sep + c,
    decreases a.len(),
{
    let ap = a.push(c);
    if a.len() == 0 {
        assert(ap.len() == 1);
        assert(ap[0] == c);
    } else if a.len() == 1 {
        assert(ap.len() == 2);
        assert(ap[0] == a[0]);
        assert(ap.skip(1) =~= seq![c]);
        assert(join_spec(ap.skip(1), sep) == c);
        assert(join_spec(a, sep) == a[0]);
    } else {
        assert(ap.skip(1) =~= a.skip(1).push(c));
        lemma_join_push(a.skip(1), sep, c);
        assert(join_spec(ap, sep) == ap[0] + sep + join_spec(a.skip(1).push(c), sep));
        assert(join_spec(a.skip(1).push(c), sep) == join_spec(a.skip(1), sep) + sep + c);
        assert(ap[0] + sep + (join_spec(a.skip(1), sep) + sep + c) =~= (a[0] + sep + join_spec(
            a.skip(1),
            sep,
        )) + sep + c);
    }
}

/// Chunk/join identity: joining the chunks of `s` with an empty separator
/// restores `s`, for any positive width that is a multiple of four.
pub proof fn lemma_chunk_join(s: Seq<u8>, w: int)
    requires
        w > 0,
        w % 4 == 0,
    ensures
        join_spec(chunk_spec(s, w), Seq::empty()) == s,
    decreases s.len(),
{
    let sep = Seq::<u8>::empty();
    if s.len() == 0 {
        assert(join_spec(chunk_spec(s, w), sep) =~= s);
    } else if s.len() <= w {
        assert(chunk_spec(s, w) == seq![s]);
        assert(join_spec(seq![s], sep) == s);
    } else {
        lemma_chunk_join(s.skip(w), w);
        let rest = chunk_spec(s.skip(w), w);
        assert(rest.len() > 0);
        let all = seq![s.take(w)] + rest;
        assert(chunk_spec(s, w) == all);
        assert(all.len() >= 2);
        assert(all[0] == s.take(w));
        assert(all.skip(1) =~= rest);
        assert(join_spec(all, sep) == s.take(w) + sep + join_spec(rest, sep));
        assert(s.take(w) + sep + s.skip(w) =~= s);
    }
}

/// Splits an encoded byte string into fixed-width chunks.
///
/// Fails with `InvalidWidth` unless the width is a positive multiple of
/// four.  Produces `ceil(len / width)` chunks, all of width `width` except
/// possibly the last; empty input produces an empty sequence.
#[verifier::loop_isolation(false)]
pub fn chunk(encoded: &[u8], width: usize) -> (r: Result<Vec<Vec<u8>>, CodecError>)
    ensures
        (r is Ok) == (width > 0 && width % 4 == 0),
        r matches Ok(v) ==> chunks_view(v@) == chunk_spec(encoded@, width as int),
        r is Err ==> r == Err::<Vec<Vec<u8>>, CodecError>(CodecError::InvalidWidth),
{
    if width == 0 || width % 4 != 0 {
        return Err(CodecError::InvalidWidth);
    }
    let ghost s = encoded@;
    let n = encoded.len();
    let mut out: Vec<Vec<u8>> = Vec::new();
    let mut pos: usize = 0;
    proof {
        assert(s.skip(0) =~= s);
        assert(chunks_view(out@) =~= Seq::<Seq<u8>>::empty());
        assert(chunks_view(out@) + chunk_spec(s, width as int) =~= chunk_spec(s, width as int));
    }
    while pos < n
        invariant
            pos <= n,
            chunks_view(out@) + chunk_spec(s.skip(pos as int), width as int) == chunk_spec(
                s,
                width as int,
            ),
        decreases n - pos,
    {
        let end: usize = if n - pos <= width {
            n
        } else {
            pos + width
        };
        let mut piece: Vec<u8> = Vec::new();
        let mut k: usize = pos;
        while k < end
            invariant
                pos <= k <= end <= n,
                piece@ == s.subrange(pos as int, k as int),
            decreases end - k,
        {
            piece.push(encoded[k]);
            proof {
                assert(piece@ =~= s.subrange(pos as int, k as int + 1));
            }
            k = k + 1;
        }
        proof {
            let rem = s.skip(pos as int);
            assert(rem.len() == n - pos);
            if n - pos <= width {
                assert(piece@ =~= rem);
                assert(chunk_spec(rem, width as int) == seq![rem]);
                assert(s.skip(end as int) =~= Seq::<u8>::empty());
                assert(chunk_spec(s.skip(end as int), width as int) =~= Seq::<Seq<u8>>::empty());
                assert(chunks_view(out@.push(piece)) =~= chunks_view(out@) + seq![rem]);
                assert(chunks_view(out@.push(piece)) + chunk_spec(s.skip(end as int), width as int)
                    =~= chunks_view(out@) + chunk_spec(rem, width as int));
            } else {
                assert(piece@ =~= rem.take(width as int));
                assert(rem.skip(width as int) =~= s.skip(end as int));
                assert(chunk_spec(rem, width as int) == seq![rem.take(width as int)] + chunk_spec(
                    s.skip(end as int),
                    width as int,
                ));
                assert(chunks_view(out@.push(piece)) =~= chunks_view(out@) + seq![piece@]);
                assert(chunks_view(out@.push(piece)) + chunk_spec(s.skip(end as int), width as int)
                    =~= chunks_view(out@) + chunk_spec(rem, width as int));
            }
        }
        out.push(piece);
        pos = end;
    }
    proof {
        assert(s.skip(pos as int) =~= Seq::<u8>::empty());
        assert(chunk_spec(s.skip(pos as int), width as int) =~= Seq::<Seq<u8>>::empty());
        assert(chunks_view(out@) =~= chunks_view(out@) + Seq::<Seq<u8>>::empty());
    }
    Ok(out)
}

/// Concatenates chunks with `sep` between (not after) each.
#[verifier::loop_isolation(false)]
pub fn join(chunks: &Vec<Vec<u8>>, sep: &[u8]) -> (out: Vec<u8>)
    ensures
        out@ == join_spec(chunks_view(chunks@), sep@),
{
    let mut out: Vec<u8> = Vec::new();
    let mut i: usize = 0;
    while i < chunks.len()
        invariant
            i <= chunks@.len(),
            out@ == join_spec(chunks_view(chunks@.take(i as int)), sep@),
        decreases chunks@.len() - i,
    {
        if i > 0 {
            let mut k: usize = 0;
            while k < sep.len()
                invariant
                    k <= sep@.len(),
                    out@ == join_spec(chunks_view(chunks@.take(i as int)), sep@) + sep@.take(
                        k as int,
                    ),
                decreases sep@.len() - k,
            {
                out.push(sep[k]);
                proof {
                    assert(out@ =~= join_spec(chunks_view(chunks@.take(i as int)), sep@)
                        + sep@.take(k as int + 1));
                }
                k = k + 1;
            }
            proof {
                assert(sep@.take(sep@.len() as int) =~= sep@);
            }
        }
        let c = &chunks[i];
        let mut k: usize = 0;
        let ghost base = out@;
        while k < c.len()
            invariant
                k <= c@.len(),
                out@ == base + c@.take(k as int),
            decreases c@.len() - k,
        {
            out.push(c[k]);
            proof {
                assert(out@ =~= base + c@.take(k as int + 1));
            }
            k = k + 1;
        }
        proof {
            let prev = chunks_view(chunks@.take(i as int));
            let cur = chunks_view(chunks@.take(i as int + 1));
            assert(cur =~= prev.push(chunks@[i as int]@));
            lemma_join_push(prev, sep@, chunks@[i as int]@);
            assert(c@.take(c@.len() as int) =~= c@);
            if i == 0 {
                assert(join_spec(prev, sep@) =~= Seq::<u8>::empty());
                assert(out@ =~= join_spec(cur, sep@));
            } else {
                assert(out@ =~= join_spec(cur, sep@));
            }
        }
        i = i + 1;
    }
    proof {
        assert(chunks@.take(chunks@.len() as int) =~= chunks@);
    }
    out
}

} // verus!
