use crate::codec::{
    chars_ok, data_values, decode_spec, decode_values, encode_bytes, lemma_sym_index, pad_run,
    sextet_at, sextet_count, sym_index,
};
use crate::config::{Config, PaddingMode};
use crate::engine::Engine;
use crate::errors::CodecError;
use vstd::prelude::*;

verus! {

/// The symbols of the complete 3-byte groups of `s`: the part of an
/// encoding that no later input can change.
pub open spec fn complete_syms(alpha: Seq<u8>, s: Seq<u8>) -> Seq<u8> {
    Seq::new(4 * (s.len() / 3), |i: int| alpha[sextet_at(s, i) as int])
}

/// A forward-only encoder over a byte stream.
///
/// Feed it blocks of any size with `push` and collect the symbol output
/// of each call; `finish` hands the final symbols and padding out.  The
/// concatenated outputs are byte-identical to encoding the whole input
/// in memory.
pub struct StreamEncoder {
    engine: Engine,
    carry: Vec<u8>,
    fed: Ghost<Seq<u8>>,
    emitted: Ghost<Seq<u8>>,
}

impl StreamEncoder {
    /// The engine this encoder runs.
    pub closed spec fn engine_spec(&self) -> Engine {
        self.engine
    }

    /// All input bytes fed so far.
    pub closed spec fn fed(&self) -> Seq<u8> {
        self.fed@
    }

    /// All symbol bytes handed out so far.
    pub closed spec fn emitted(&self) -> Seq<u8> {
        self.emitted@
    }

    /// The internal invariant: the carry holds the trailing partial group
    /// of the input, and everything before it has been emitted.
    pub closed spec fn wf(&self) -> bool {
        &&& self.engine.wf()
        &&& self.carry@ == self.fed@.skip(3 * (self.fed@.len() as int / 3))
        &&& self.emitted@ == complete_syms(self.engine.alpha(), self.fed@)
    }

    /// Starts a stream on the given engine.
    pub fn new(engine: Engine) -> (s: StreamEncoder)
        requires
            engine.wf(),
        ensures
            s.wf(),
            s.engine_spec() == engine,
            s.fed() == Seq::<u8>::empty(),
            s.emitted() == Seq::<u8>::empty(),
    {
        let s = StreamEncoder {
            engine,
            carry: Vec::new(),
            fed: Ghost(Seq::empty()),
            emitted: Ghost(Seq::empty()),
        };
        proof {
            assert(s.carry@ =~= s.fed@.skip(0));
            assert(s.emitted@ =~= complete_syms(s.engine.alpha(), s.fed@));
        }
        s
    }

    /// Consumes one block and returns the symbols it completes.
    #[verifier::loop_isolation(false)]
    #[verifier::rlimit(30)]
    pub fn push(&mut self, block: &[u8]) -> (out: Vec<u8>)
        requires
            old(self).wf(),
        ensures
            final(self).wf(),
            final(self).engine_spec() == old(self).engine_spec(),
            final(self).fed() == old(self).fed() + block@,
            final(self).emitted() == old(self).emitted() + out@,
    {
        let ghost oldfed = self.fed@;
        let ghost alpha = self.engine.alpha();
        let ghost hlen: int = 3 * (oldfed.len() as int / 3);
        // Work on the carry followed by the new block.
        let mut loc: Vec<u8> = Vec::new();
        let mut k: usize = 0;
        while k < self.carry.len()
            invariant
                k <= self.carry@.len(),
                loc@ == self.carry@.take(k as int),
                self == old(self),
            decreases self.carry@.len() - k,
        {
            loc.push(self.carry[k]);
            proof {
                assert(loc@ =~= self.carry@.take(k as int + 1));
            }
            k = k + 1;
        }
        proof {
            assert(loc@ =~= self.carry@);
        }
        let mut k: usize = 0;
        while k < block.len()
            invariant
                k <= block@.len(),
                loc@ == self.carry@ + block@.take(k as int),
                self == old(self),
            decreases block@.len() - k,
        {
            loc.push(block[k]);
            proof {
                assert(loc@ =~= self.carry@ + block@.take(k as int + 1));
            }
            k = k + 1;
        }
        proof {
            assert(loc@ =~= self.carry@ + block@);
        }
        let ghost newfed = oldfed + block@;
        proof {
            assert(oldfed.take(hlen) + loc@ =~= newfed);
            assert(hlen % 3 == 0 && hlen / 3 == oldfed.len() as int / 3 && 0 <= hlen <= oldfed.len()) by (nonlinear_arith)
                requires
                    hlen == 3 * (oldfed.len() as int / 3),
            ;
        }
        // Emit the symbols of every complete group now available.
        let q = loc.len() / 3;
        proof {
            assert(3 * q <= loc@.len() && loc@.len() - 3 * q == loc@.len() % 3 && loc@.len() % 3 < 3)
                by (nonlinear_arith)
                requires
                    q == loc@.len() as int / 3,
            ;
        }
        let mut out: Vec<u8> = Vec::new();
        let mut g: usize = 0;
        while g < q
            invariant
                g <= q,
                out@.len() == 4 * g,
                forall|i: int| 0 <= i < 4 * g ==> out@[i] == alpha[sextet_at(loc@, i) as int],
            decreases q - g,
        {
            proof {
                assert(3 * g + 2 < 3 * q && 4 * g + 4 <= 4 * q) by (nonlinear_arith)
                    requires
                        g < q,
                ;
                assert(sextet_count(loc@.len()) >= 4 * q) by (nonlinear_arith)
                    requires
                        q == loc@.len() as int / 3,
                        sextet_count(loc@.len()) == 4 * (loc@.len() / 3) + (if loc@.len() % 3 == 0 {
                            0nat
                        } else {
                            loc@.len() % 3 + 1
                        }),
                ;
            }
            let a = loc[3 * g];
            let b = loc[3 * g + 1];
            let c = loc[3 * g + 2];
            let v0 = a >> 2u8;
            let v1 = ((a & 0x03) << 4u8) | (b >> 4u8);
            let v2 = ((b & 0x0f) << 2u8) | (c >> 6u8);
            let v3 = c & 0x3f;
            proof {
                let gi = g as int;
                assert((4 * gi) / 4 == gi && (4 * gi) % 4 == 0 && (4 * gi + 1) / 4 == gi && (4 * gi
                    + 1) % 4 == 1 && (4 * gi + 2) / 4 == gi && (4 * gi + 2) % 4 == 2 && (4 * gi + 3)
                    / 4 == gi && (4 * gi + 3) % 4 == 3) by (nonlinear_arith)
                    requires
                        gi >= 0,
                ;
                assert(v0 < 64 && v1 < 64 && v2 < 64 && v3 < 64) by (bit_vector)
                    requires
                        v0 == a >> 2u8,
                        v1 == ((a & 0x03) << 4u8) | (b >> 4u8),
                        v2 == ((b & 0x0f) << 2u8) | (c >> 6u8),
                        v3 == c & 0x3f,
                ;
                assert(sextet_at(loc@, 4 * gi) == v0);
                assert(sextet_at(loc@, 4 * gi + 1) == v1);
                assert(sextet_at(loc@, 4 * gi + 2) == v2);
                assert(sextet_at(loc@, 4 * gi + 3) == v3);
            }
            let ab = self.engine.alphabet();
            out.push(ab.symbol_at(v0));
            out.push(ab.symbol_at(v1));
            out.push(ab.symbol_at(v2));
            out.push(ab.symbol_at(v3));
            g = g + 1;
        }
        // The new carry is the leftover partial group.
        let mut rem: Vec<u8> = Vec::new();
        let mut k: usize = 3 * q;
        while k < loc.len()
            invariant
                3 * q <= k <= loc@.len(),
                rem@ == loc@.subrange(3 * q, k as int),
            decreases loc@.len() - k,
        {
            rem.push(loc[k]);
            proof {
                assert(rem@ =~= loc@.subrange(3 * q, k as int + 1));
            }
            k = k + 1;
        }
        proof {
            assert(rem@ =~= loc@.skip(3 * q));
        }
        self.carry = rem;
        proof {
            let ge = self.emitted@ + out@;
            self.fed@ = newfed;
            self.emitted@ = ge;
        }
        proof {
            // The carry matches the trailing partial group of the new input.
            assert(newfed.len() == oldfed.len() + block@.len());
            assert(newfed.len() as int / 3 == hlen / 3 + q && 3 * (hlen / 3 + q) == hlen + 3 * q)
                by (nonlinear_arith)
                requires
                    newfed.len() == hlen + loc@.len(),
                    hlen % 3 == 0,
                    hlen >= 0,
                    q == loc@.len() as int / 3,
            ;
            assert(self.carry@ =~= newfed.skip(3 * (newfed.len() as int / 3)));
            // Everything emitted so far is the complete-group symbols.
            let newemit = complete_syms(alpha, newfed);
            assert(newemit.len() == 4 * (hlen / 3) + 4 * q);
            assert(old(self).emitted@.len() == 4 * (oldfed.len() as int / 3));
            assert forall|i: int| 0 <= i < newemit.len() implies newemit[i] == self.emitted@[i] by {
                if i < 4 * (hlen / 3) {
                    assert(oldfed =~= newfed.take(oldfed.len() as int));
                    crate::codec::lemma_sextet_prefix(oldfed, newfed, i);
                    assert(sextet_at(newfed, i) == sextet_at(oldfed, i));
                } else {
                    assert(0 <= i - 4 * (hlen / 3) < 4 * q);
                    assert(sextet_count(newfed.len()) >= 4 * (newfed.len() / 3)) by (nonlinear_arith)
                        requires
                            sextet_count(newfed.len()) == 4 * (newfed.len() / 3) + (if newfed.len()
                                % 3 == 0 {
                                0nat
                            } else {
                                newfed.len() % 3 + 1
                            }),
                    ;
                    crate::codec::lemma_sextet_shift(oldfed.take(hlen), loc@, i);
                    assert(oldfed.take(hlen).len() == hlen);
                    assert(oldfed.take(hlen) + loc@ =~= newfed);
                    assert(sextet_at(newfed, i) == sextet_at(loc@, i - 4 * (hlen / 3)));
                }
            }
            assert(self.emitted@ =~= newemit);
        }
        out
    }

    /// Ends the stream: returns the symbols of the final partial group and
    /// the padding the policy calls for.  Everything handed out over the
    /// whole stream concatenates to the in-memory encoding of the input.
    pub fn finish(self) -> (out: Vec<u8>)
        requires
            self.wf(),
        ensures
            self.emitted() + out@ == encode_bytes(
                self.engine_spec().alpha(),
                self.engine_spec().pad_spec(),
                self.engine_spec().cfg().encode_padding,
                self.fed(),
            ),
    {
        let ghost alpha = self.engine.alpha();
        let ghost fedv = self.fed@;
        let ghost hlen: int = 3 * (fedv.len() as int / 3);
        let out = self.engine.encode(self.carry.as_slice());
        proof {
            let use_pad = self.engine.cfg().encode_padding;
            let pad = self.engine.pad_spec();
            let carry = self.carry@;
            assert(hlen % 3 == 0 && 0 <= hlen <= fedv.len() && fedv.len() - hlen == fedv.len() % 3)
                by (nonlinear_arith)
                requires
                    hlen == 3 * (fedv.len() as int / 3),
            ;
            assert(fedv.take(hlen) + carry =~= fedv);
            assert(carry.len() == fedv.len() % 3);
            let full = encode_bytes(alpha, pad, use_pad, fedv);
            let tail = encode_bytes(alpha, pad, use_pad, carry);
            // Same padding on both sides.
            assert(crate::codec::pad_count(fedv.len()) == crate::codec::pad_count(carry.len()));
            // Symbol counts line up.
            assert(sextet_count(fedv.len()) == 4 * (hlen / 3) + sextet_count(carry.len()))
                by (nonlinear_arith)
                requires
                    hlen == 3 * (fedv.len() as int / 3),
                    fedv.len() - hlen == carry.len(),
                    carry.len() == fedv.len() % 3,
                    sextet_count(fedv.len()) == 4 * (fedv.len() / 3) + (if fedv.len() % 3 == 0 {
                        0nat
                    } else {
                        fedv.len() % 3 + 1
                    }),
                    sextet_count(carry.len()) == 4 * (carry.len() / 3) + (if carry.len() % 3 == 0 {
                        0nat
                    } else {
                        carry.len() % 3 + 1
                    }),
                    carry.len() < 3,
            ;
            assert forall|i: int| 0 <= i < full.len() implies full[i] == (self.emitted@ + out@)[i] by {
                if i < 4 * (hlen / 3) {
                    assert(full[i] == alpha[sextet_at(fedv, i) as int]);
                    assert(self.emitted@[i] == alpha[sextet_at(fedv, i) as int]);
                } else if i < sextet_count(fedv.len()) {
                    crate::codec::lemma_sextet_shift(fedv.take(hlen), carry, i);
                    assert(sextet_at(fedv, i) == sextet_at(carry, i - 4 * (hlen / 3)));
                    assert(full[i] == alpha[sextet_at(fedv, i) as int]);
                    assert(out@[i - 4 * (hlen / 3)] == alpha[sextet_at(carry, i - 4 * (hlen
                        / 3)) as int]);
                } else {
                    // The padding region.
                    assert(full[i] == pad);
                    assert(out@[i - 4 * (hlen / 3)] == pad);
                }
            }
            assert(full.len() == self.emitted@.len() + out@.len());
            assert(self.emitted@ + out@ =~= full);
        }
        out
    }
}


/// Everything seen so far could still be a valid decode input: every byte
/// is a symbol or the pad byte, and no pad byte stands before a symbol.
pub open spec fn stream_clean(alpha: Seq<u8>, pad: u8, t: Seq<u8>) -> bool {
    &&& chars_ok(alpha, pad, t)
    &&& (forall|i: int| 0 <= i < t.len() - pad_run(pad, t) ==> t[i] != pad)
}

/// A forward-only decoder over a symbol stream.
///
/// Feed it blocks of any size with `push` and collect the decoded bytes
/// of each call; byte-level faults surface as soon as they are read.
/// `finish` runs the checks that only the end of the stream can settle
/// (length, padding counts, trailing bits) and hands the final bytes out.
pub struct StreamDecoder {
    engine: Engine,
    carry: Vec<u8>,
    pads: u8,
    failed: bool,
    fed: Ghost<Seq<u8>>,
    emitted: Ghost<Seq<u8>>,
}

impl StreamDecoder {
    /// The engine this decoder runs.
    pub closed spec fn engine_spec(&self) -> Engine {
        self.engine
    }

    /// All input bytes fed so far.
    pub closed spec fn fed(&self) -> Seq<u8> {
        self.fed@
    }

    /// All decoded bytes handed out so far.
    pub closed spec fn emitted(&self) -> Seq<u8> {
        self.emitted@
    }

    /// Whether a byte-level fault has already been reported.
    pub closed spec fn failed(&self) -> bool {
        self.failed
    }

    /// The internal invariant: while no fault was seen, the input so far
    /// is clean, the carry holds the data symbols of the open group, and
    /// every complete group has been decoded and handed out.
    pub closed spec fn wf(&self) -> bool {
        let alpha = self.engine.alpha();
        let pad = self.engine.pad_spec();
        let p = pad_run(pad, self.fed@) as int;
        let d = self.fed@.len() - p;
        &&& self.engine.wf()
        &&& !self.failed ==> {
            &&& stream_clean(alpha, pad, self.fed@)
            &&& self.pads == (if p >= 3 { 3int } else { p })
            &&& self.carry@ == self.fed@.subrange(d - d % 4, d)
            &&& self.emitted@ == decode_values(data_values(alpha, self.fed@.take(d - d % 4)))
        }
    }

    /// Starts a stream on the given engine.
    pub fn new(engine: Engine) -> (s: StreamDecoder)
        requires
            engine.wf(),
        ensures
            s.wf(),
            !s.failed(),
            s.engine_spec() == engine,
            s.fed() == Seq::<u8>::empty(),
            s.emitted() == Seq::<u8>::empty(),
    {
        let s = StreamDecoder {
            engine,
            carry: Vec::new(),
            pads: 0,
            failed: false,
            fed: Ghost(Seq::empty()),
            emitted: Ghost(Seq::empty()),
        };
        proof {
            let alpha = s.engine.alpha();
            assert(pad_run(s.engine.pad_spec(), s.fed@) == 0);
            assert(s.carry@ =~= s.fed@.subrange(0, 0));
            assert(s.fed@.take(0) =~= Seq::<u8>::empty());
            assert(data_values(alpha, Seq::<u8>::empty()) =~= Seq::<u8>::empty());
            assert(s.emitted@ =~= decode_values(Seq::<u8>::empty()));
        }
        s
    }

    /// Consumes one block and returns the bytes its complete groups
    /// decode to.
    ///
    /// Fails fast: `InvalidCharacter` if the block holds a byte outside
    /// the symbol set, else `InvalidPadding` if a symbol follows a pad
    /// byte.  After a failure the decoder refuses further input.
    #[verifier::loop_isolation(false)]
    #[verifier::rlimit(100)]
    pub fn push(&mut self, block: &[u8]) -> (r: Result<Vec<u8>, CodecError>)
        requires
            old(self).wf(),
            !old(self).failed(),
        ensures
            final(self).wf(),
            final(self).engine_spec() == old(self).engine_spec(),
            final(self).fed() == old(self).fed() + block@,
            (r is Ok) == stream_clean(
                old(self).engine_spec().alpha(),
                old(self).engine_spec().pad_spec(),
                old(self).fed() + block@,
            ),
            r matches Ok(out) ==> !final(self).failed() && final(self).emitted() == old(
                self,
            ).emitted() + out@,
            r matches Err(e) ==> final(self).failed() && e == (if !chars_ok(
                old(self).engine_spec().alpha(),
                old(self).engine_spec().pad_spec(),
                old(self).fed() + block@,
            ) {
                CodecError::InvalidCharacter
            } else {
                CodecError::InvalidPadding
            }),
    {
        let ghost alpha = self.engine.alpha();
        let ghost oldfed = self.fed@;
        let ghost newfed = oldfed + block@;
        let padb = self.engine.alphabet().pad_byte();
        let n = block.len();
        proof {
            self.fed@ = newfed;
        }
        // Every byte of the block must be a symbol or the pad byte.
        let mut i: usize = 0;
        while i < n
            invariant
                i <= n,
                forall|k: int| 0 <= k < i ==> alpha.contains(block@[k]) || block@[k] == padb,
                self.engine == old(self).engine,
                self.carry == old(self).carry,
                self.pads == old(self).pads,
                self.failed == old(self).failed,
                self.emitted == old(self).emitted,
                self.fed@ == newfed,
            decreases n - i,
        {
            let b = block[i];
            if b != padb && self.engine.alphabet().index_of(b).is_none() {
                self.failed = true;
                proof {
                    assert(!(alpha.contains(newfed[oldfed.len() + i]) || newfed[oldfed.len()
                        + i] == padb));
                    assert(!chars_ok(alpha, padb, newfed));
                }
                return Err(CodecError::InvalidCharacter);
            }
            i = i + 1;
        }
        proof {
            assert forall|k: int| 0 <= k < newfed.len() implies alpha.contains(newfed[k])
                || newfed[k] == padb by {
                if k < oldfed.len() {
                    assert(alpha.contains(oldfed[k]) || oldfed[k] == padb);
                }
            }
            assert(chars_ok(alpha, padb, newfed));
        }
        // Process byte by byte, emitting each group as it completes.
        let mut out: Vec<u8> = Vec::new();
        let mut i: usize = 0;
        while i < n
            invariant
                i <= n,
                self.engine == old(self).engine,
                self.fed@ == newfed,
                !self.failed,
                stream_clean(alpha, padb, oldfed + block@.take(i as int)),
                ({
                    let cur = oldfed + block@.take(i as int);
                    let p = pad_run(padb, cur) as int;
                    let d = cur.len() - p;
                    &&& self.pads == (if p >= 3 { 3int } else { p })
                    &&& self.carry@ == cur.subrange(d - d % 4, d)
                    &&& old(self).emitted@ + out@ == decode_values(
                        data_values(alpha, cur.take(d - d % 4)),
                    )
                }),
            decreases n - i,
        {
            let ghost cur = oldfed + block@.take(i as int);
            let ghost p = pad_run(padb, cur) as int;
            let ghost d = cur.len() - p;
            let ghost cur2 = oldfed + block@.take(i as int + 1);
            let b = block[i];
            proof {
                crate::codec::lemma_pad_run_le(padb, cur);
                crate::codec::lemma_pad_run_le(padb, cur2);
                assert(cur2 =~= cur.push(b));
                assert(b == newfed[oldfed.len() + i]);
                assert(alpha.contains(b) || b == padb);
            }
            if b == padb {
                proof {
                    assert(cur2[cur2.len() - 1] == padb);
                    assert(cur2.drop_last() =~= cur);
                    assert(pad_run(padb, cur2) == 1 + pad_run(padb, cur));
                    assert(cur2.subrange(d - d % 4, d) =~= cur.subrange(d - d % 4, d));
                    assert(cur2.take(d - d % 4) =~= cur.take(d - d % 4));
                }
                if self.pads < 3 {
                    self.pads = self.pads + 1;
                }
            } else {
                if self.pads > 0 {
                    self.failed = true;
                    proof {
                        // A pad byte stands before this symbol: never valid.
                        assert(pad_run(padb, cur) >= 1);
                        assert(cur[cur.len() - 1] == padb);
                        assert(newfed[oldfed.len() + i] == b && b != padb);
                        crate::codec::lemma_pad_run_cap(padb, newfed, oldfed.len() + i);
                        assert(newfed.len() - pad_run(padb, newfed) > oldfed.len() + i);
                        assert(newfed[cur.len() - 1] == padb);
                        assert(!stream_clean(alpha, padb, newfed));
                    }
                    return Err(CodecError::InvalidPadding);
                }
                // No pads seen: the new byte extends the data part.
                proof {
                    assert(p == 0);
                    assert(d == cur.len());
                    assert(cur2[cur2.len() - 1] == b && b != padb);
                    assert(pad_run(padb, cur2) == 0);
                }
                let w = match self.engine.alphabet().index_of(b) {
                    Option::Some(w) => w,
                    Option::None => {
                        proof {
                            assert(false);
                        }
                        return Err(CodecError::InvalidCharacter);
                    },
                };
                proof {
                    self.engine.lemma_wf_valid();
                    lemma_sym_index(alpha, padb, b);
                }
                let ghost carry0 = self.carry@;
                self.carry.push(b);
                if self.carry.len() == 4 {
                    // A group completed: decode its three bytes.
                    let w0 = self.lookup(self.carry[0]);
                    let w1 = self.lookup(self.carry[1]);
                    let w2 = self.lookup(self.carry[2]);
                    let w3 = w;
                    let b0 = (w0 << 2u8) | (w1 >> 4u8);
                    let b1 = ((w1 & 0x0f) << 4u8) | (w2 >> 2u8);
                    let b2 = ((w2 & 0x03) << 6u8) | w3;
                    out.push(b0);
                    out.push(b1);
                    out.push(b2);
                    self.carry = Vec::new();
                    proof {
                        let base = d - d % 4;
                        assert(d % 4 == 3);
                        assert(cur2.len() == d + 1);
                        assert((d + 1) % 4 == 0 && base == (d + 1) - 4 && (d + 1) - ((d
                            + 1) as int % 4) == d + 1) by (nonlinear_arith)
                            requires
                                d % 4 == 3,
                                base == d - d % 4,
                                d >= 0,
                        ;
                        assert(carry0 == cur.subrange(base, d));
                        assert(carry0.push(b) =~= cur2.subrange(base, d + 1));
                        assert(cur2[base] == carry0.push(b)[0]);
                        assert(cur2[base + 1] == carry0.push(b)[1]);
                        assert(cur2[base + 2] == carry0.push(b)[2]);
                        assert(cur2[base + 3] == b);
                        assert(w0 as int == sym_index(alpha, cur2[base]));
                        assert(w1 as int == sym_index(alpha, cur2[base + 1]));
                        assert(w2 as int == sym_index(alpha, cur2[base + 2]));
                        assert(w3 as int == sym_index(alpha, cur2[base + 3]));
                        crate::codec::lemma_decode_extend_quad(
                            alpha,
                            cur2,
                            w0,
                            w1,
                            w2,
                            w3,
                            b0,
                            b1,
                            b2,
                        );
                        assert(cur2.take(cur2.len() - 4) =~= cur.take(base));
                        assert(cur2.take(cur2.len() as int) =~= cur2);
                        assert(old(self).emitted@ + out@ =~= decode_values(
                            data_values(alpha, cur2),
                        ));
                        assert(self.carry@ =~= cur2.subrange(
                            cur2.len() as int,
                            cur2.len() as int,
                        ));
                    }
                } else {
                    proof {
                        let base = d - d % 4;
                        assert((d + 1) as int % 4 == d % 4 + 1 && (d + 1) - ((d + 1) as int % 4)
                            == base) by (nonlinear_arith)
                            requires
                                base == d - d % 4,
                                d >= 0,
                                d % 4 < 3,
                        ;
                        assert(self.carry@ =~= cur2.subrange(base, d + 1));
                        assert(cur2.take(base) =~= cur.take(base));
                    }
                }
            }
            i = i + 1;
        }
        proof {
            assert(oldfed + block@.take(n as int) =~= newfed);
            let ge = old(self).emitted@ + out@;
            self.emitted@ = ge;
        }
        Ok(out)
    }


    /// Ends the stream: runs the checks only the end of input can settle
    /// (length, padding counts, trailing bits) and returns the bytes of
    /// the final partial group.
    ///
    /// Everything handed out over the whole stream concatenates to the
    /// in-memory decode of the input; a rejected input earns exactly the
    /// error the in-memory decode assigns.
    #[verifier::loop_isolation(false)]
    #[verifier::rlimit(100)]
    pub fn finish(self) -> (r: Result<Vec<u8>, CodecError>)
        requires
            self.wf(),
            !self.failed(),
        ensures
            match r {
                Ok(tail) => decode_spec(
                    self.engine_spec().alpha(),
                    self.engine_spec().pad_spec(),
                    self.engine_spec().cfg(),
                    self.fed(),
                ) == Ok::<Seq<u8>, CodecError>(self.emitted() + tail@),
                Err(e) => decode_spec(
                    self.engine_spec().alpha(),
                    self.engine_spec().pad_spec(),
                    self.engine_spec().cfg(),
                    self.fed(),
                ) == Err::<Seq<u8>, CodecError>(e),
            },
    {
        let ghost alpha = self.engine.alpha();
        let ghost padg = self.engine.pad_spec();
        let ghost fedv = self.fed@;
        let ghost preal = pad_run(padg, fedv) as int;
        let ghost d = fedv.len() - preal;
        proof {
            crate::codec::lemma_pad_run_le(padg, fedv);
            assert(self.carry@.len() == d % 4);
        }
        let m = self.carry.len();
        let p = self.pads;
        // The pad count must fit a final group of 2 or 3 data symbols.
        if p > 0 && !((m == 2 && p <= 2) || (m == 3 && p == 1)) {
            proof {
                if preal >= 3 {
                    assert(!(preal == 0 || (d % 4 == 2 && 1 <= preal <= 2) || (d % 4 == 3 && preal
                        == 1)));
                }
                assert(!crate::codec::placement_ok(padg, fedv, d, preal));
            }
            return Err(CodecError::InvalidPadding);
        }
        proof {
            assert(crate::codec::placement_ok(padg, fedv, d, preal));
        }
        if m == 1 {
            return Err(CodecError::InvalidLength);
        }
        let cfg = self.engine.config();
        match cfg.decode_padding_mode {
            PaddingMode::RequireNone => {
                if p > 0 {
                    return Err(CodecError::InvalidPadding);
                }
            },
            PaddingMode::RequireCanonical => {
                proof {
                    assert((d + preal) % 4 == (d % 4 + preal) % 4) by (nonlinear_arith)
                        requires
                            d >= 0,
                            preal >= 0,
                    ;
                }
                if (m + (p as usize)) % 4 != 0 {
                    return Err(CodecError::InvalidPadding);
                }
            },
            PaddingMode::Indifferent => {},
        }
        // The carry holds the data symbols of the final partial group.
        let ghost data = fedv.take(d);
        proof {
            assert forall|k: int| 0 <= k < m implies alpha.contains(self.carry@[k]) by {
                assert(self.carry@[k] == fedv[d - m + k]);
                assert(fedv[d - m + k] != padg);
                assert(alpha.contains(fedv[d - m + k]) || fedv[d - m + k] == padg);
            }
            assert(data.len() == d);
            assert(forall|k: int| 0 <= k < d ==> data[k] == fedv[k]);
        }
        let mut tail: Vec<u8> = Vec::new();
        if m == 2 {
            let w0 = self.lookup(self.carry[0]);
            let w1 = self.lookup(self.carry[1]);
            proof {
                assert(self.carry@[1] == data[d - 1]);
                assert(w1 as int == sym_index(alpha, data[d - 1]));
            }
            if !cfg.decode_allow_trailing_bits && (w1 & 0x0f) != 0 {
                proof {
                    assert(crate::codec::trailing_bits_bad(alpha, data));
                }
                return Err(CodecError::InvalidTrailingBits);
            }
            let b0 = (w0 << 2u8) | (w1 >> 4u8);
            tail.push(b0);
            proof {
                assert(self.carry@[0] == data[d - 2]);
                crate::codec::lemma_decode_tail2(alpha, data, w0, w1, b0);
                assert(data.take(d - 2) =~= fedv.take(d - d % 4));
                assert(tail@ =~= seq![b0]);
            }
        } else if m == 3 {
            let w0 = self.lookup(self.carry[0]);
            let w1 = self.lookup(self.carry[1]);
            let w2 = self.lookup(self.carry[2]);
            proof {
                assert(self.carry@[2] == data[d - 1]);
                assert(w2 as int == sym_index(alpha, data[d - 1]));
            }
            if !cfg.decode_allow_trailing_bits && (w2 & 0x03) != 0 {
                proof {
                    assert(crate::codec::trailing_bits_bad(alpha, data));
                }
                return Err(CodecError::InvalidTrailingBits);
            }
            let b0 = (w0 << 2u8) | (w1 >> 4u8);
            let b1 = ((w1 & 0x0f) << 4u8) | (w2 >> 2u8);
            tail.push(b0);
            tail.push(b1);
            proof {
                assert(self.carry@[0] == data[d - 3]);
                assert(self.carry@[1] == data[d - 2]);
                crate::codec::lemma_decode_tail3(alpha, data, w0, w1, w2, b0, b1);
                assert(data.take(d - 3) =~= fedv.take(d - d % 4));
                assert(tail@ =~= seq![b0, b1]);
            }
        } else {
            proof {
                assert(m == 0);
                assert(!crate::codec::trailing_bits_bad(alpha, data));
                assert(data =~= fedv.take(d - d % 4));
            }
        }
        proof {
            assert(self.emitted@ + tail@ =~= decode_values(data_values(alpha, data)));
        }
        Ok(tail)
    }

    /// The 6-bit value of a byte known to be a symbol.
    fn lookup(&self, b: u8) -> (w: u8)
        requires
            self.engine.wf(),
            self.engine.alpha().contains(b),
        ensures
            w as int == sym_index(self.engine.alpha(), b),
            w < 64,
    {
        proof {
            self.engine.lemma_wf_valid();
            lemma_sym_index(self.engine.alpha(), self.engine.pad_spec(), b);
        }
        match self.engine.alphabet().index_of(b) {
            Option::Some(w) => w,
            Option::None => {
                proof {
                    assert(false);
                }
                0
            },
        }
    }
}

} // verus!
