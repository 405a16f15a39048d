use crate::alphabet::{
    lemma_standard_valid, lemma_url_safe_valid, standard_symbols, str_eq, url_safe_symbols,
    valid_symbols, Alphabet, DEFAULT_PAD,
};
use crate::codec::{
    byte_at, chars_ok, data_values, decode_spec, decode_values, encode_bytes, encode_symbols,
    lemma_encoded_len, lemma_pad_run_value, lemma_sym_index, placement_ok, sextet_at,
    sextet_count, sym_index, trailing_bits_bad,
};
use crate::config::{Config, PaddingMode};
use crate::errors::CodecError;
use vstd::prelude::*;

verus! {

/// An alphabet bound with a padding policy: a ready-to-use codec.
#[derive(Debug)]
pub struct Engine {
    alphabet: Alphabet,
    config: Config,
}

impl Engine {
    /// The symbol sequence of the bound alphabet.
    pub closed spec fn alpha(&self) -> Seq<u8> {
        self.alphabet@
    }

    /// The pad byte of the bound alphabet.
    pub closed spec fn pad_spec(&self) -> u8 {
        self.alphabet.pad_spec()
    }

    /// The bound policy bundle.
    pub closed spec fn cfg(&self) -> Config {
        self.config
    }

    /// The internal invariant: the bound alphabet is well formed.
    pub closed spec fn wf(&self) -> bool {
        self.alphabet.wf()
    }

    /// A well-formed engine always carries a valid symbol set.
    pub proof fn lemma_wf_valid(&self)
        requires
            self.wf(),
        ensures
            valid_symbols(self.alpha(), self.pad_spec()),
    {
        self.alphabet.lemma_wf_valid();
    }

    /// Binds an alphabet and a configuration.
    pub fn new(alphabet: Alphabet, config: Config) -> (e: Engine)
        requires
            alphabet.wf(),
        ensures
            e.wf(),
            e.alpha() == alphabet@,
            e.pad_spec() == alphabet.pad_spec(),
            e.cfg() == config,
    {
        Engine { alphabet, config }
    }

    /// The bound configuration.
    pub fn config(&self) -> (c: Config)
        ensures
            c == self.cfg(),
    {
        self.config
    }

    /// The bound alphabet.
    pub fn alphabet(&self) -> (a: &Alphabet)
        requires
            self.wf(),
        ensures
            a.wf(),
            a@ == self.alpha(),
            a.pad_spec() == self.pad_spec(),
    {
        &self.alphabet
    }

    /// Encodes `input` under the bound alphabet and padding policy.
    ///
    /// Never fails; the output length is `4 * ceil(n / 3)` with padding
    /// enabled and the bare symbol count without it.
    pub fn encode(&self, input: &[u8]) -> (out: Vec<u8>)
        requires
            self.wf(),
        ensures
            out@ == encode_bytes(self.alpha(), self.pad_spec(), self.cfg().encode_padding, input@),
            self.cfg().encode_padding ==> out@.len() == 4 * ((input@.len() + 2) / 3),
            !self.cfg().encode_padding ==> out@.len() == sextet_count(input@.len()),
    {
        let n = input.len();
        let q = n / 3;
        proof {
            assert(3 * q <= n && n - 3 * q == n % 3 && (n % 3) < 3) by (nonlinear_arith)
                requires
                    q == n as int / 3,
                    n >= 0,
            ;
        }
        let ghost s = input@;
        let mut out: Vec<u8> = Vec::new();
        let mut g: usize = 0;
        while g < q
            invariant
                self.wf(),
                q == n as int / 3,
                3 * q <= n == s.len(),
                g <= q,
                out@.len() == 4 * g,
                forall|i: int| 0 <= i < 4 * g ==> out@[i] == self.alpha()[sextet_at(s, i) as int],
                s == input@,
            decreases q - g,
        {
            proof {
                assert(3 * g + 2 < n && 4 * g + 4 <= 4 * q) by (nonlinear_arith)
                    requires
                        g < q,
                        3 * q <= n,
                ;
                assert(sextet_count(s.len()) >= 4 * q) by (nonlinear_arith)
                    requires
                        q == s.len() as int / 3,
                        sextet_count(s.len()) == 4 * (s.len() / 3) + (if s.len() % 3 == 0 {
                            0nat
                        } else {
                            s.len() % 3 + 1
                        }),
                ;
            }
            let a = input[3 * g];
            let b = input[3 * g + 1];
            let c = input[3 * g + 2];
            let v0 = a >> 2u8;
            let v1 = ((a & 0x03) << 4u8) | (b >> 4u8);
            let v2 = ((b & 0x0f) << 2u8) | (c >> 6u8);
            let v3 = c & 0x3f;
            proof {
                let gi = g as int;
                assert((4 * gi) / 4 == gi && (4 * gi) % 4 == 0 && (4 * gi + 1) / 4 == gi && (4 * gi
                    + 1) % 4 == 1 && (4 * gi + 2) / 4 == gi && (4 * gi + 2) % 4 == 2 && (4 * gi + 3)
                    / 4 == gi && (4 * gi + 3) % 4 == 3) by (nonlinear_arith)
                    requires
                        gi >= 0,
                ;
                assert(v0 < 64 && v1 < 64 && v2 < 64 && v3 < 64) by (bit_vector)
                    requires
                        v0 == a >> 2u8,
                        v1 == ((a & 0x03) << 4u8) | (b >> 4u8),
                        v2 == ((b & 0x0f) << 2u8) | (c >> 6u8),
                        v3 == c & 0x3f,
                ;
                assert(sextet_at(s, 4 * gi) == v0);
                assert(sextet_at(s, 4 * gi + 1) == v1);
                assert(sextet_at(s, 4 * gi + 2) == v2);
                assert(sextet_at(s, 4 * gi + 3) == v3);
            }
            out.push(self.alphabet.symbol_at(v0));
            out.push(self.alphabet.symbol_at(v1));
            out.push(self.alphabet.symbol_at(v2));
            out.push(self.alphabet.symbol_at(v3));
            g = g + 1;
        }
        let m = n - 3 * q;
        proof {
            lemma_encoded_len(s.len());
            assert(s.len() % 3 == m);
        }
        if m == 1 {
            let a = input[n - 1];
            let v0 = a >> 2u8;
            let v1 = (a & 0x03) << 4u8;
            proof {
                let gi = q as int;
                assert((4 * gi) / 4 == gi && (4 * gi) % 4 == 0 && (4 * gi + 1) / 4 == gi && (4 * gi
                    + 1) % 4 == 1) by (nonlinear_arith)
                    requires
                        gi >= 0,
                ;
                assert(v0 < 64 && v1 < 64 && v1 | 0u8 == v1) by (bit_vector)
                    requires
                        v0 == a >> 2u8,
                        v1 == (a & 0x03) << 4u8,
                ;
                assert(sextet_at(s, 4 * gi) == v0);
                assert(sextet_at(s, 4 * gi + 1) == v1);
            }
            out.push(self.alphabet.symbol_at(v0));
            out.push(self.alphabet.symbol_at(v1));
        } else if m == 2 {
            let a = input[n - 2];
            let b = input[n - 1];
            let v0 = a >> 2u8;
            let v1 = ((a & 0x03) << 4u8) | (b >> 4u8);
            let v2 = (b & 0x0f) << 2u8;
            proof {
                let gi = q as int;
                assert((4 * gi) / 4 == gi && (4 * gi) % 4 == 0 && (4 * gi + 1) / 4 == gi && (4 * gi
                    + 1) % 4 == 1 && (4 * gi + 2) / 4 == gi && (4 * gi + 2) % 4 == 2)
                    by (nonlinear_arith)
                    requires
                        gi >= 0,
                ;
                assert(v0 < 64 && v1 < 64 && v2 < 64 && v2 | 0u8 == v2) by (bit_vector)
                    requires
                        v0 == a >> 2u8,
                        v1 == ((a & 0x03) << 4u8) | (b >> 4u8),
                        v2 == (b & 0x0f) << 2u8,
                ;
                assert(sextet_at(s, 4 * gi) == v0);
                assert(sextet_at(s, 4 * gi + 1) == v1);
                assert(sextet_at(s, 4 * gi + 2) == v2);
            }
            out.push(self.alphabet.symbol_at(v0));
            out.push(self.alphabet.symbol_at(v1));
            out.push(self.alphabet.symbol_at(v2));
        }
        proof {
            assert(out@ =~= encode_symbols(self.alpha(), s));
        }
        if self.config.encode_padding && m != 0 {
            let padb = self.alphabet.pad_byte();
            out.push(padb);
            if m == 1 {
                out.push(padb);
            }
        }
        proof {
            assert(out@ =~= encode_bytes(
                self.alpha(),
                self.pad_spec(),
                self.cfg().encode_padding,
                s,
            ));
        }
        out
    }

    /// Decodes `input` under the bound alphabet and padding policy.
    ///
    /// Succeeds exactly on the inputs `decode_spec` accepts; each rejected
    /// input earns the error `decode_spec` assigns to it: `InvalidCharacter`
    /// for a byte outside the symbol set, `InvalidPadding` for misplaced or
    /// miscounted pad bytes, `InvalidLength` for a lone trailing symbol and
    /// `InvalidTrailingBits` for nonzero unused bits while disallowed.
    #[verifier::loop_isolation(false)]
    #[verifier::rlimit(60)]
    pub fn decode(&self, input: &[u8]) -> (r: Result<Vec<u8>, CodecError>)
        requires
            self.wf(),
        ensures
            match r {
                Ok(v) => decode_spec(self.alpha(), self.pad_spec(), self.cfg(), input@) == Ok::<
                    Seq<u8>,
                    CodecError,
                >(v@),
                Err(e) => decode_spec(self.alpha(), self.pad_spec(), self.cfg(), input@) == Err::<
                    Seq<u8>,
                    CodecError,
                >(e),
            },
    {
        let ghost alpha = self.alpha();
        let ghost t = input@;
        proof {
            self.lemma_wf_valid();
        }
        let padb = self.alphabet.pad_byte();
        let n = input.len();
        // Every byte must be a symbol or the pad byte.
        let mut i: usize = 0;
        while i < n
            invariant
                self.wf(),
                i <= n,
                n == t.len(),
                t == input@,
                alpha == self.alpha(),
                padb == self.pad_spec(),
                forall|k: int| 0 <= k < i ==> alpha.contains(t[k]) || t[k] == padb,
            decreases n - i,
        {
            let b = input[i];
            if b != padb && self.alphabet.index_of(b).is_none() {
                proof {
                    assert(!(alpha.contains(t[i as int]) || t[i as int] == padb));
                }
                return Err(CodecError::InvalidCharacter);
            }
            i = i + 1;
        }
        assert(chars_ok(alpha, padb, t));
        // Measure the trailing pad run.
        let mut p: usize = 0;
        while p < n && input[n - 1 - p] == padb
            invariant
                p <= n,
                n == t.len(),
                t == input@,
                forall|k: int| n - p <= k < n ==> t[k] == padb,
            decreases n - p,
        {
            p = p + 1;
        }
        proof {
            lemma_pad_run_value(padb, t, p as int);
        }
        let d = n - p;
        // No pad byte may stand before the data end.
        let mut i: usize = 0;
        while i < d
            invariant
                i <= d,
                d == n - p,
                p <= n,
                n == t.len(),
                t == input@,
                padb == self.pad_spec(),
                forall|k: int| 0 <= k < i ==> t[k] != padb,
            decreases d - i,
        {
            if input[i] == padb {
                proof {
                    assert(!placement_ok(padb, t, d as int, p as int));
                }
                return Err(CodecError::InvalidPadding);
            }
            i = i + 1;
        }
        // The pad count must fit a final group of 2 or 3 data symbols.
        let m = d % 4;
        if p > 0 && !((m == 2 && p <= 2) || (m == 3 && p == 1)) {
            return Err(CodecError::InvalidPadding);
        }
        assert(placement_ok(padb, t, d as int, p as int));
        if m == 1 {
            return Err(CodecError::InvalidLength);
        }
        let cfg = self.config;
        match cfg.decode_padding_mode {
            PaddingMode::RequireNone => {
                if p > 0 {
                    return Err(CodecError::InvalidPadding);
                }
            },
            PaddingMode::RequireCanonical => {
                if (d % 4 + p) % 4 != 0 {
                    proof {
                        assert((d as int + p as int) % 4 == (d as int % 4 + p as int) % 4)
                            by (nonlinear_arith)
                            requires
                                d >= 0,
                                p >= 0,
                        ;
                    }
                    return Err(CodecError::InvalidPadding);
                }
                proof {
                    assert((d as int + p as int) % 4 == (d as int % 4 + p as int) % 4)
                        by (nonlinear_arith)
                        requires
                            d >= 0,
                            p >= 0,
                    ;
                }
            },
            PaddingMode::Indifferent => {},
        }
        // Map the data symbols to their 6-bit values.
        let ghost data = t.take(d as int);
        let mut vals: Vec<u8> = Vec::new();
        let mut i: usize = 0;
        while i < d
            invariant
                self.wf(),
                i <= d,
                d <= n,
                n == t.len(),
                t == input@,
                alpha == self.alpha(),
                padb == self.pad_spec(),
                chars_ok(alpha, padb, t),
                forall|k: int| 0 <= k < d ==> t[k] != padb,
                vals@.len() == i,
                forall|k: int|
                    0 <= k < i ==> vals@[k] == sym_index(alpha, t[k]) as u8 && vals@[k] < 64,
            decreases d - i,
        {
            let b = input[i];
            match self.alphabet.index_of(b) {
                Some(v) => {
                    proof {
                        self.lemma_wf_valid();
                        lemma_sym_index(alpha, self.pad_spec(), b);
                    }
                    vals.push(v);
                },
                None => {
                    proof {
                        assert(alpha.contains(t[i as int]) || t[i as int] == padb);
                        assert(false);
                    }
                    return Err(CodecError::InvalidCharacter);
                },
            }
            i = i + 1;
        }
        proof {
            assert(vals@ =~= data_values(alpha, data));
        }
        // Check the unused bits of the final value.
        if m >= 2 {
            let last = vals[d - 1];
            let mask: u8 = if m == 2 {
                0x0f
            } else {
                0x03
            };
            if !cfg.decode_allow_trailing_bits && (last & mask) != 0 {
                proof {
                    assert(trailing_bits_bad(alpha, data));
                }
                return Err(CodecError::InvalidTrailingBits);
            }
        }
        proof {
            if !cfg.decode_allow_trailing_bits {
                assert(!trailing_bits_bad(alpha, data));
            }
        }
        // Rebuild the bytes, one full group at a time.
        let q4 = d / 4;
        proof {
            assert(4 * q4 <= d && d - 4 * q4 == d % 4) by (nonlinear_arith)
                requires
                    q4 == d as int / 4,
                    d >= 0,
            ;
        }
        let mut out: Vec<u8> = Vec::new();
        let mut g: usize = 0;
        while g < q4
            invariant
                g <= q4,
                4 * q4 <= d,
                vals@.len() == d,
                forall|k: int| 0 <= k < d ==> vals@[k] < 64,
                out@.len() == 3 * g,
                forall|j: int| 0 <= j < 3 * g ==> out@[j] == byte_at(vals@, j),
            decreases q4 - g,
        {
            proof {
                assert(4 * g + 3 < 4 * q4 && 3 * g + 3 <= 3 * q4) by (nonlinear_arith)
                    requires
                        g < q4,
                ;
            }
            let w0 = vals[4 * g];
            let w1 = vals[4 * g + 1];
            let w2 = vals[4 * g + 2];
            let w3 = vals[4 * g + 3];
            let b0 = (w0 << 2u8) | (w1 >> 4u8);
            let b1 = ((w1 & 0x0f) << 4u8) | (w2 >> 2u8);
            let b2 = ((w2 & 0x03) << 6u8) | w3;
            proof {
                let gi = g as int;
                assert((3 * gi) / 3 == gi && (3 * gi) % 3 == 0 && (3 * gi + 1) / 3 == gi && (3 * gi
                    + 1) % 3 == 1 && (3 * gi + 2) / 3 == gi && (3 * gi + 2) % 3 == 2)
                    by (nonlinear_arith)
                    requires
                        gi >= 0,
                ;
                assert(byte_at(vals@, 3 * gi) == b0);
                assert(byte_at(vals@, 3 * gi + 1) == b1);
                assert(byte_at(vals@, 3 * gi + 2) == b2);
            }
            out.push(b0);
            out.push(b1);
            out.push(b2);
            g = g + 1;
        }
        if m == 2 {
            let w0 = vals[d - 2];
            let w1 = vals[d - 1];
            let b0 = (w0 << 2u8) | (w1 >> 4u8);
            proof {
                let gi = q4 as int;
                assert((3 * gi) / 3 == gi && (3 * gi) % 3 == 0) by (nonlinear_arith)
                    requires
                        gi >= 0,
                ;
                assert(byte_at(vals@, 3 * gi) == b0);
            }
            out.push(b0);
        } else if m == 3 {
            let w0 = vals[d - 3];
            let w1 = vals[d - 2];
            let w2 = vals[d - 1];
            let b0 = (w0 << 2u8) | (w1 >> 4u8);
            let b1 = ((w1 & 0x0f) << 4u8) | (w2 >> 2u8);
            proof {
                let gi = q4 as int;
                assert((3 * gi) / 3 == gi && (3 * gi) % 3 == 0 && (3 * gi + 1) / 3 == gi && (3 * gi
                    + 1) % 3 == 1) by (nonlinear_arith)
                    requires
                        gi >= 0,
                ;
                assert(byte_at(vals@, 3 * gi) == b0);
                assert(byte_at(vals@, 3 * gi + 1) == b1);
            }
            out.push(b0);
            out.push(b1);
        }
        proof {
            assert(out@ =~= decode_values(data_values(alpha, data)));
        }
        Ok(out)
    }

    /// The standard alphabet with padded encode and canonical-padding decode.
    pub fn standard() -> (e: Engine)
        ensures
            e.wf(),
            e.alpha() == standard_symbols(),
            e.pad_spec() == DEFAULT_PAD,
            e.cfg().encode_padding == true,
            e.cfg().decode_allow_trailing_bits == false,
            e.cfg().decode_padding_mode == PaddingMode::RequireCanonical,
    {
        proof {
            lemma_standard_valid();
        }
        match Alphabet::from_preset("standard") {
            Ok(a) => Engine::new(a, Config::standard()),
            Err(_) => vstd::pervasive::unreached(),
        }
    }

    /// The standard alphabet with unpadded encode and no-padding decode.
    pub fn standard_no_pad() -> (e: Engine)
        ensures
            e.wf(),
            e.alpha() == standard_symbols(),
            e.pad_spec() == DEFAULT_PAD,
            e.cfg().encode_padding == false,
            e.cfg().decode_allow_trailing_bits == false,
            e.cfg().decode_padding_mode == PaddingMode::RequireNone,
    {
        proof {
            lemma_standard_valid();
        }
        match Alphabet::from_preset("standard") {
            Ok(a) => Engine::new(a, Config::no_pad()),
            Err(_) => vstd::pervasive::unreached(),
        }
    }

    /// The URL-safe alphabet with padded encode and canonical-padding decode.
    pub fn url_safe() -> (e: Engine)
        ensures
            e.wf(),
            e.alpha() == url_safe_symbols(),
            e.pad_spec() == DEFAULT_PAD,
            e.cfg().encode_padding == true,
            e.cfg().decode_allow_trailing_bits == false,
            e.cfg().decode_padding_mode == PaddingMode::RequireCanonical,
    {
        proof {
            lemma_url_safe_valid();
        }
        match Alphabet::from_preset("url_safe") {
            Ok(a) => Engine::new(a, Config::standard()),
            Err(_) => vstd::pervasive::unreached(),
        }
    }

    /// The URL-safe alphabet with unpadded encode and no-padding decode.
    pub fn url_safe_no_pad() -> (e: Engine)
        ensures
            e.wf(),
            e.alpha() == url_safe_symbols(),
            e.pad_spec() == DEFAULT_PAD,
            e.cfg().encode_padding == false,
            e.cfg().decode_allow_trailing_bits == false,
            e.cfg().decode_padding_mode == PaddingMode::RequireNone,
    {
        proof {
            lemma_url_safe_valid();
        }
        match Alphabet::from_preset("url_safe") {
            Ok(a) => Engine::new(a, Config::no_pad()),
            Err(_) => vstd::pervasive::unreached(),
        }
    }

    /// Looks a pre-bound engine up by its name.
    ///
    /// The known names are `standard`, `standard_no_pad`, `url_safe` and
    /// `url_safe_no_pad`; any other name fails with `UnknownPreset`.
    pub fn from_preset(name: &str) -> (r: Result<Engine, CodecError>)
        ensures
            name@ == "standard"@ ==> engine_preset_result(
                r,
                standard_symbols(),
                true,
                PaddingMode::RequireCanonical,
            ),
            name@ == "standard_no_pad"@ ==> engine_preset_result(
                r,
                standard_symbols(),
                false,
                PaddingMode::RequireNone,
            ),
            name@ == "url_safe"@ ==> engine_preset_result(
                r,
                url_safe_symbols(),
                true,
                PaddingMode::RequireCanonical,
            ),
            name@ == "url_safe_no_pad"@ ==> engine_preset_result(
                r,
                url_safe_symbols(),
                false,
                PaddingMode::RequireNone,
            ),
            name@ != "standard"@ && name@ != "standard_no_pad"@ && name@ != "url_safe"@ && name@
                != "url_safe_no_pad"@ ==> r == Err::<Engine, CodecError>(CodecError::UnknownPreset),
    {
        proof {
            lemma_engine_names_distinct();
        }
        if str_eq(name, "standard") {
            Ok(Engine::standard())
        } else if str_eq(name, "standard_no_pad") {
            Ok(Engine::standard_no_pad())
        } else if str_eq(name, "url_safe") {
            Ok(Engine::url_safe())
        } else if str_eq(name, "url_safe_no_pad") {
            Ok(Engine::url_safe_no_pad())
        } else {
            Err(CodecError::UnknownPreset)
        }
    }
}

/// What looking an engine preset up guarantees: a well-formed engine with
/// the named alphabet, the `=` pad byte, strict trailing bits, and the
/// padding policy of the preset.
pub open spec fn engine_preset_result(
    r: Result<Engine, CodecError>,
    symbols: Seq<u8>,
    pads: bool,
    mode: PaddingMode,
) -> bool {
    &&& r is Ok
    &&& r matches Ok(e) ==> e.wf() && e.alpha() == symbols && e.pad_spec() == DEFAULT_PAD
        && e.cfg().encode_padding == pads && e.cfg().decode_allow_trailing_bits == false
        && e.cfg().decode_padding_mode == mode
}

/// The four engine preset names denote pairwise different strings.
proof fn lemma_engine_names_distinct()
    ensures
        "standard"@ != "standard_no_pad"@,
        "standard"@ != "url_safe"@,
        "standard"@ != "url_safe_no_pad"@,
        "standard_no_pad"@ != "url_safe"@,
        "standard_no_pad"@ != "url_safe_no_pad"@,
        "url_safe"@ != "url_safe_no_pad"@,
{
    reveal_strlit("standard");
    reveal_strlit("standard_no_pad");
    reveal_strlit("url_safe");
    reveal_strlit("url_safe_no_pad");
    assert("standard"@ != "standard_no_pad"@) by {
        assert("standard"@.len() != "standard_no_pad"@.len());
    }
    assert("standard"@ != "url_safe"@) by {
        assert("standard"@[0] != "url_safe"@[0]);
    }
    assert("standard"@ != "url_safe_no_pad"@) by {
        assert("standard"@.len() != "url_safe_no_pad"@.len());
    }
    assert("standard_no_pad"@ != "url_safe"@) by {
        assert("standard_no_pad"@.len() != "url_safe"@.len());
    }
    assert("standard_no_pad"@ != "url_safe_no_pad"@) by {
        assert("standard_no_pad"@[0] != "url_safe_no_pad"@[0]);
    }
    assert("url_safe"@ != "url_safe_no_pad"@) by {
        assert("url_safe"@.len() != "url_safe_no_pad"@.len());
    }
}


} // verus!
