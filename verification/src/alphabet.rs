use crate::errors::CodecError;
use vstd::prelude::*;

verus! {

/// The pad byte used unless a caller overrides it: `=`.
pub const DEFAULT_PAD: u8 = 61;

/// What a well-formed symbol set looks like: 64 unique printable ASCII
/// bytes, none of them equal to the (printable) pad byte.
pub open spec fn valid_symbols(alpha: Seq<u8>, pad: u8) -> bool {
    &&& alpha.len() == 64
    &&& 32 <= pad <= 126
    &&& (forall|i: int, j: int| 0 <= i < j < 64 ==> alpha[i] != alpha[j])
    &&& (forall|i: int| 0 <= i < 64 ==> 32 <= alpha[i] <= 126 && alpha[i] != pad)
}

/// A 64-symbol mapping table plus the pad byte, with an inverse lookup
/// table built at construction so that `index_of` is a single load.
#[derive(Debug)]
pub struct Alphabet {
    symbols: Vec<u8>,
    pad: u8,
    lut: Vec<u8>,
}

impl View for Alphabet {
    type V = Seq<u8>;

    /// The ordered symbol sequence: index `i` holds the symbol for value `i`.
    closed spec fn view(&self) -> Seq<u8> {
        self.symbols@
    }
}

impl Alphabet {
    /// The pad byte this alphabet carries.
    pub closed spec fn pad_spec(&self) -> u8 {
        self.pad
    }

    /// The internal invariant: a valid symbol set and a correct inverse table.
    pub closed spec fn wf(&self) -> bool {
        &&& valid_symbols(self.symbols@, self.pad)
        &&& self.lut@.len() == 256
        &&& (forall|j: int| 0 <= j < 64 ==> self.lut@[self.symbols@[j] as int] == j)
        &&& (forall|k: int|
            0 <= k < 256 ==> (self.lut@[k] == 255 <==> !self.symbols@.contains(k as u8)))
        &&& (forall|k: int|
            0 <= k < 256 ==> self.lut@[k] == 255 || (self.lut@[k] < 64
                && self.symbols@[self.lut@[k] as int] == k as u8))
    }

    /// A well-formed alphabet always satisfies the plain symbol-set predicate.
    pub proof fn lemma_wf_valid(&self)
        requires
            self.wf(),
        ensures
            valid_symbols(self@, self.pad_spec()),
    {
    }

    /// Builds an alphabet from 64 symbols with the default `=` pad byte.
    ///
    /// Fails with `InvalidAlphabet` when the symbols are not 64 unique
    /// printable ASCII bytes distinct from the pad.
    pub fn build(symbols: &Vec<u8>) -> (r: Result<Alphabet, CodecError>)
        ensures
            (r is Ok) == valid_symbols(symbols@, DEFAULT_PAD),
            r matches Ok(a) ==> a.wf() && a@ == symbols@ && a.pad_spec() == DEFAULT_PAD,
            r is Err ==> r == Err::<Alphabet, CodecError>(CodecError::InvalidAlphabet),
    {
        Self::build_with_pad(symbols, DEFAULT_PAD)
    }

    /// Builds an alphabet from 64 symbols and a caller-chosen pad byte.
    pub fn build_with_pad(symbols: &Vec<u8>, pad: u8) -> (r: Result<Alphabet, CodecError>)
        ensures
            (r is Ok) == valid_symbols(symbols@, pad),
            r matches Ok(a) ==> a.wf() && a@ == symbols@ && a.pad_spec() == pad,
            r is Err ==> r == Err::<Alphabet, CodecError>(CodecError::InvalidAlphabet),
    {
        if symbols.len() != 64 {
            return Err(CodecError::InvalidAlphabet);
        }
        if pad < 32 || pad > 126 {
            return Err(CodecError::InvalidAlphabet);
        }
        let mut lut: Vec<u8> = Vec::new();
        let mut k: usize = 0;
        while k < 256
            invariant
                k <= 256,
                lut@.len() == k,
                forall|t: int| 0 <= t < k ==> lut@[t] == 255,
            decreases 256 - k,
        {
            lut.push(255);
            k = k + 1;
        }
        let mut syms: Vec<u8> = Vec::new();
        let mut i: usize = 0;
        while i < 64
            invariant
                i <= 64,
                symbols@.len() == 64,
                32 <= pad <= 126,
                syms@ == symbols@.take(i as int),
                lut@.len() == 256,
                forall|j: int| 0 <= j < i ==> 32 <= symbols@[j] <= 126 && symbols@[j] != pad,
                forall|j: int| 0 <= j < i ==> lut@[symbols@[j] as int] == j,
                forall|t: int|
                    0 <= t < 256 ==> (lut@[t] == 255 <==> !symbols@.take(i as int).contains(
                        t as u8,
                    )),
                forall|t: int|
                    0 <= t < 256 ==> lut@[t] == 255 || (lut@[t] < i && symbols@[lut@[t] as int]
                        == t as u8),
            decreases 64 - i,
        {
            let b = symbols[i];
            assert(symbols@.take(i as int + 1) =~= symbols@.take(i as int).push(b));
            if b < 32 || b > 126 || b == pad {
                return Err(CodecError::InvalidAlphabet);
            }
            if lut[b as usize] != 255 {
                // `b` already occurred: the set is not duplicate-free.
                proof {
                    let t = lut@[b as int];
                    assert(symbols@[t as int] == b);
                }
                return Err(CodecError::InvalidAlphabet);
            }
            lut.set(b as usize, i as u8);
            syms.push(b);
            proof {
                assert((i as u8) != 255);
                assert(symbols@.take(i as int + 1)[i as int] == b);
                assert(symbols@.take(i as int + 1).contains(b));
            }
            i = i + 1;
        }
        assert(syms@ =~= symbols@);
        let a = Alphabet { symbols: syms, pad, lut };
        assert(a.wf()) by {
            assert(forall|t: int|
                0 <= t < 256 ==> (a.lut@[t] == 255 <==> !symbols@.take(64).contains(t as u8)));
            assert(symbols@.take(64) =~= symbols@);
        }
        Ok(a)
    }

    /// The symbol assigned to a 6-bit value.
    pub fn symbol_at(&self, index: u8) -> (b: u8)
        requires
            self.wf(),
            index < 64,
        ensures
            b == self@[index as int],
    {
        self.symbols[index as usize]
    }

    /// The 6-bit value of a symbol, or `None` for a byte outside the set.
    pub fn index_of(&self, b: u8) -> (r: Option<u8>)
        requires
            self.wf(),
        ensures
            (r is Some) == self@.contains(b),
            r matches Some(v) ==> v < 64 && self@[v as int] == b,
    {
        let v = self.lut[b as usize];
        if v == 255 {
            None
        } else {
            Some(v)
        }
    }

    /// The pad byte.
    pub fn pad_byte(&self) -> (b: u8)
        ensures
            b == self.pad_spec(),
    {
        self.pad
    }

    /// The 64 symbols in order, for display.
    pub fn render(&self) -> (v: Vec<u8>)
        requires
            self.wf(),
        ensures
            v@ == self@,
    {
        let mut v: Vec<u8> = Vec::new();
        let mut i: usize = 0;
        while i < self.symbols.len()
            invariant
                i <= self.symbols@.len(),
                v@ == self.symbols@.take(i as int),
            decreases self.symbols@.len() - i,
        {
            let b = self.symbols[i];
            assert(self.symbols@.take(i as int + 1) =~= self.symbols@.take(i as int).push(b));
            v.push(b);
            i = i + 1;
        }
        assert(v@ =~= self.symbols@);
        v
    }

    /// Looks a preset alphabet up by its name.
    ///
    /// The known names are `standard`, `url_safe`, `bcrypt`, `bin_hex`,
    /// `crypt` and `imap_mutf7`; any other name fails with `UnknownPreset`.
    pub fn from_preset(name: &str) -> (r: Result<Alphabet, CodecError>)
        ensures
            name@ == "standard"@ ==> preset_result(r, standard_symbols()),
            name@ == "url_safe"@ ==> preset_result(r, url_safe_symbols()),
            name@ == "bcrypt"@ ==> preset_result(r, bcrypt_symbols()),
            name@ == "bin_hex"@ ==> preset_result(r, bin_hex_symbols()),
            name@ == "crypt"@ ==> preset_result(r, crypt_symbols()),
            name@ == "imap_mutf7"@ ==> preset_result(r, imap_mutf7_symbols()),
            name@ != "standard"@ && name@ != "url_safe"@ && name@ != "bcrypt"@ && name@
                != "bin_hex"@ && name@ != "crypt"@ && name@ != "imap_mutf7"@ ==> r == Err::<
                Alphabet,
                CodecError,
            >(CodecError::UnknownPreset),
    {
        proof {
            lemma_preset_names_distinct();
        }
        if str_eq(name, "standard") {
            proof {
                lemma_standard_valid();
            }
            Self::of_valid_symbols(standard_bytes())
        } else if str_eq(name, "url_safe") {
            proof {
                lemma_url_safe_valid();
            }
            Self::of_valid_symbols(url_safe_bytes())
        } else if str_eq(name, "bcrypt") {
            proof {
                lemma_bcrypt_valid();
            }
            Self::of_valid_symbols(bcrypt_bytes())
        } else if str_eq(name, "bin_hex") {
            proof {
                lemma_bin_hex_valid();
            }
            Self::of_valid_symbols(bin_hex_bytes())
        } else if str_eq(name, "crypt") {
            proof {
                lemma_crypt_valid();
            }
            Self::of_valid_symbols(crypt_bytes())
        } else if str_eq(name, "imap_mutf7") {
            proof {
                lemma_imap_mutf7_valid();
            }
            Self::of_valid_symbols(imap_mutf7_bytes())
        } else {
            Err(CodecError::UnknownPreset)
        }
    }

    /// Wraps a symbol set already known to be valid.
    fn of_valid_symbols(symbols: Vec<u8>) -> (r: Result<Alphabet, CodecError>)
        requires
            valid_symbols(symbols@, DEFAULT_PAD),
        ensures
            preset_result(r, symbols@),
    {
        let r = Self::build_with_pad(&symbols, DEFAULT_PAD);
        match r {
            Ok(a) => Ok(a),
            Err(_) => {
                assert(false);
                Err(CodecError::UnknownPreset)
            },
        }
    }
}

/// What looking a preset up guarantees: a well-formed alphabet holding
/// exactly the preset's symbols, padded with `=`.
pub open spec fn preset_result(r: Result<Alphabet, CodecError>, symbols: Seq<u8>) -> bool {
    &&& r is Ok
    &&& r matches Ok(a) ==> a.wf() && a@ == symbols && a.pad_spec() == DEFAULT_PAD
}

/// The six preset names denote pairwise different strings.
proof fn lemma_preset_names_distinct()
    ensures
        "standard"@ != "url_safe"@,
        "standard"@ != "bcrypt"@,
        "standard"@ != "bin_hex"@,
        "standard"@ != "crypt"@,
        "standard"@ != "imap_mutf7"@,
        "url_safe"@ != "bcrypt"@,
        "url_safe"@ != "bin_hex"@,
        "url_safe"@ != "crypt"@,
        "url_safe"@ != "imap_mutf7"@,
        "bcrypt"@ != "bin_hex"@,
        "bcrypt"@ != "crypt"@,
        "bcrypt"@ != "imap_mutf7"@,
        "bin_hex"@ != "crypt"@,
        "bin_hex"@ != "imap_mutf7"@,
        "crypt"@ != "imap_mutf7"@,
{
    reveal_strlit("standard");
    reveal_strlit("url_safe");
    reveal_strlit("bcrypt");
    reveal_strlit("bin_hex");
    reveal_strlit("crypt");
    reveal_strlit("imap_mutf7");
    assert("standard"@ != "url_safe"@) by {
        assert("standard"@[0] != "url_safe"@[0]);
    }
    assert("standard"@ != "bcrypt"@) by {
        assert("standard"@.len() != "bcrypt"@.len());
    }
    assert("standard"@ != "bin_hex"@) by {
        assert("standard"@.len() != "bin_hex"@.len());
    }
    assert("standard"@ != "crypt"@) by {
        assert("standard"@.len() != "crypt"@.len());
    }
    assert("standard"@ != "imap_mutf7"@) by {
        assert("standard"@.len() != "imap_mutf7"@.len());
    }
    assert("url_safe"@ != "bcrypt"@) by {
        assert("url_safe"@.len() != "bcrypt"@.len());
    }
    assert("url_safe"@ != "bin_hex"@) by {
        assert("url_safe"@.len() != "bin_hex"@.len());
    }
    assert("url_safe"@ != "crypt"@) by {
        assert("url_safe"@.len() != "crypt"@.len());
    }
    assert("url_safe"@ != "imap_mutf7"@) by {
        assert("url_safe"@.len() != "imap_mutf7"@.len());
    }
    assert("bcrypt"@ != "bin_hex"@) by {
        assert("bcrypt"@.len() != "bin_hex"@.len());
    }
    assert("bcrypt"@ != "crypt"@) by {
        assert("bcrypt"@.len() != "crypt"@.len());
    }
    assert("bcrypt"@ != "imap_mutf7"@) by {
        assert("bcrypt"@.len() != "imap_mutf7"@.len());
    }
    assert("bin_hex"@ != "crypt"@) by {
        assert("bin_hex"@.len() != "crypt"@.len());
    }
    assert("bin_hex"@ != "imap_mutf7"@) by {
        assert("bin_hex"@.len() != "imap_mutf7"@.len());
    }
    assert("crypt"@ != "imap_mutf7"@) by {
        assert("crypt"@.len() != "imap_mutf7"@.len());
    }
}

/// Character-wise string equality, usable on any two `&str` values.
pub fn str_eq(a: &str, b: &str) -> (r: bool)
    ensures
        r == (a@ == b@),
{
    let n = a.unicode_len();
    let m = b.unicode_len();
    if n != m {
        proof {
            assert(a@ != b@) by {
                assert(a@.len() != b@.len());
            }
        }
        return false;
    }
    let mut i: usize = 0;
    while i < n
        invariant
            n == a@.len(),
            n == b@.len(),
            i <= n,
            forall|k: int| 0 <= k < i ==> a@[k] == b@[k],
        decreases n - i,
    {
        if a.get_char(i) != b.get_char(i) {
            return false;
        }
        i = i + 1;
    }
    proof {
        assert(a@ =~= b@);
    }
    true
}

/// The symbol at position `i` of the standard preset alphabet.
pub open spec fn standard_sym(i: int) -> u8 {
    if i < 26 {
        (i + 65) as u8
    } else if i < 52 {
        (i + 71) as u8
    } else if i < 62 {
        (i - 4) as u8
    } else if i < 63 {
        (i - 19) as u8
    } else {
        (i - 16) as u8
    }
}

/// The standard preset alphabet as a symbol sequence.
pub open spec fn standard_symbols() -> Seq<u8> {
    Seq::new(64, |i: int| standard_sym(i))
}

/// The standard preset alphabet is a valid symbol set with pad `=`.
pub proof fn lemma_standard_valid()
    ensures
        valid_symbols(standard_symbols(), 61),
{
    assert forall|i: int, j: int| 0 <= i < j < 64 implies standard_symbols()[i]
        != standard_symbols()[j] by {
        assert(standard_sym(i) != standard_sym(j));
    }
}

/// Builds the standard preset symbols at run time.
fn standard_bytes() -> (v: Vec<u8>)
    ensures
        v@ == standard_symbols(),
{
    let mut v: Vec<u8> = Vec::new();
    let mut i: usize = 0;
    while i < 64
        invariant
            i <= 64,
            v@.len() == i,
            forall|k: int| 0 <= k < i ==> v@[k] == standard_sym(k),
        decreases 64 - i,
    {
        let b: u8 = if i < 26 {
        (i + 65) as u8
    } else if i < 52 {
        (i + 71) as u8
    } else if i < 62 {
        (i - 4) as u8
    } else if i < 63 {
        (i - 19) as u8
    } else {
        (i - 16) as u8
    };
        assert(b == standard_sym(i as int));
        v.push(b);
        i = i + 1;
    }
    proof {
        assert(v@ =~= standard_symbols());
    }
    v
}


/// The symbol at position `i` of the url safe preset alphabet.
pub open spec fn url_safe_sym(i: int) -> u8 {
    if i < 26 {
        (i + 65) as u8
    } else if i < 52 {
        (i + 71) as u8
    } else if i < 62 {
        (i - 4) as u8
    } else if i < 63 {
        (i - 17) as u8
    } else {
        (i + 32) as u8
    }
}

/// The url safe preset alphabet as a symbol sequence.
pub open spec fn url_safe_symbols() -> Seq<u8> {
    Seq::new(64, |i: int| url_safe_sym(i))
}

/// The url safe preset alphabet is a valid symbol set with pad `=`.
pub proof fn lemma_url_safe_valid()
    ensures
        valid_symbols(url_safe_symbols(), 61),
{
    assert forall|i: int, j: int| 0 <= i < j < 64 implies url_safe_symbols()[i]
        != url_safe_symbols()[j] by {
        assert(url_safe_sym(i) != url_safe_sym(j));
    }
}

/// Builds the url safe preset symbols at run time.
fn url_safe_bytes() -> (v: Vec<u8>)
    ensures
        v@ == url_safe_symbols(),
{
    let mut v: Vec<u8> = Vec::new();
    let mut i: usize = 0;
    while i < 64
        invariant
            i <= 64,
            v@.len() == i,
            forall|k: int| 0 <= k < i ==> v@[k] == url_safe_sym(k),
        decreases 64 - i,
    {
        let b: u8 = if i < 26 {
        (i + 65) as u8
    } else if i < 52 {
        (i + 71) as u8
    } else if i < 62 {
        (i - 4) as u8
    } else if i < 63 {
        (i - 17) as u8
    } else {
        (i + 32) as u8
    };
        assert(b == url_safe_sym(i as int));
        v.push(b);
        i = i + 1;
    }
    proof {
        assert(v@ =~= url_safe_symbols());
    }
    v
}


/// The symbol at position `i` of the crypt preset alphabet.
pub open spec fn crypt_sym(i: int) -> u8 {
    if i < 12 {
        (i + 46) as u8
    } else if i < 38 {
        (i + 53) as u8
    } else {
        (i + 59) as u8
    }
}

/// The crypt preset alphabet as a symbol sequence.
pub open spec fn crypt_symbols() -> Seq<u8> {
    Seq::new(64, |i: int| crypt_sym(i))
}

/// The crypt preset alphabet is a valid symbol set with pad `=`.
pub proof fn lemma_crypt_valid()
    ensures
        valid_symbols(crypt_symbols(), 61),
{
    assert forall|i: int, j: int| 0 <= i < j < 64 implies crypt_symbols()[i]
        != crypt_symbols()[j] by {
        assert(crypt_sym(i) != crypt_sym(j));
    }
}

/// Builds the crypt preset symbols at run time.
fn crypt_bytes() -> (v: Vec<u8>)
    ensures
        v@ == crypt_symbols(),
{
    let mut v: Vec<u8> = Vec::new();
    let mut i: usize = 0;
    while i < 64
        invariant
            i <= 64,
            v@.len() == i,
            forall|k: int| 0 <= k < i ==> v@[k] == crypt_sym(k),
        decreases 64 - i,
    {
        let b: u8 = if i < 12 {
        (i + 46) as u8
    } else if i < 38 {
        (i + 53) as u8
    } else {
        (i + 59) as u8
    };
        assert(b == crypt_sym(i as int));
        v.push(b);
        i = i + 1;
    }
    proof {
        assert(v@ =~= crypt_symbols());
    }
    v
}


/// The symbol at position `i` of the bcrypt preset alphabet.
pub open spec fn bcrypt_sym(i: int) -> u8 {
    if i < 2 {
        (i + 46) as u8
    } else if i < 28 {
        (i + 63) as u8
    } else if i < 54 {
        (i + 69) as u8
    } else {
        (i - 6) as u8
    }
}

/// The bcrypt preset alphabet as a symbol sequence.
pub open spec fn bcrypt_symbols() -> Seq<u8> {
    Seq::new(64, |i: int| bcrypt_sym(i))
}

/// The bcrypt preset alphabet is a valid symbol set with pad `=`.
pub proof fn lemma_bcrypt_valid()
    ensures
        valid_symbols(bcrypt_symbols(), 61),
{
    assert forall|i: int, j: int| 0 <= i < j < 64 implies bcrypt_symbols()[i]
        != bcrypt_symbols()[j] by {
        assert(bcrypt_sym(i) != bcrypt_sym(j));
    }
}

/// Builds the bcrypt preset symbols at run time.
fn bcrypt_bytes() -> (v: Vec<u8>)
    ensures
        v@ == bcrypt_symbols(),
{
    let mut v: Vec<u8> = Vec::new();
    let mut i: usize = 0;
    while i < 64
        invariant
            i <= 64,
            v@.len() == i,
            forall|k: int| 0 <= k < i ==> v@[k] == bcrypt_sym(k),
        decreases 64 - i,
    {
        let b: u8 = if i < 2 {
        (i + 46) as u8
    } else if i < 28 {
        (i + 63) as u8
    } else if i < 54 {
        (i + 69) as u8
    } else {
        (i - 6) as u8
    };
        assert(b == bcrypt_sym(i as int));
        v.push(b);
        i = i + 1;
    }
    proof {
        assert(v@ =~= bcrypt_symbols());
    }
    v
}


/// The symbol at position `i` of the imap mutf7 preset alphabet.
pub open spec fn imap_mutf7_sym(i: int) -> u8 {
    if i < 26 {
        (i + 65) as u8
    } else if i < 52 {
        (i + 71) as u8
    } else if i < 62 {
        (i - 4) as u8
    } else {
        (i - 19) as u8
    }
}

/// The imap mutf7 preset alphabet as a symbol sequence.
pub open spec fn imap_mutf7_symbols() -> Seq<u8> {
    Seq::new(64, |i: int| imap_mutf7_sym(i))
}

/// The imap mutf7 preset alphabet is a valid symbol set with pad `=`.
pub proof fn lemma_imap_mutf7_valid()
    ensures
        valid_symbols(imap_mutf7_symbols(), 61),
{
    assert forall|i: int, j: int| 0 <= i < j < 64 implies imap_mutf7_symbols()[i]
        != imap_mutf7_symbols()[j] by {
        assert(imap_mutf7_sym(i) != imap_mutf7_sym(j));
    }
}

/// Builds the imap mutf7 preset symbols at run time.
fn imap_mutf7_bytes() -> (v: Vec<u8>)
    ensures
        v@ == imap_mutf7_symbols(),
{
    let mut v: Vec<u8> = Vec::new();
    let mut i: usize = 0;
    while i < 64
        invariant
            i <= 64,
            v@.len() == i,
            forall|k: int| 0 <= k < i ==> v@[k] == imap_mutf7_sym(k),
        decreases 64 - i,
    {
        let b: u8 = if i < 26 {
        (i + 65) as u8
    } else if i < 52 {
        (i + 71) as u8
    } else if i < 62 {
        (i - 4) as u8
    } else {
        (i - 19) as u8
    };
        assert(b == imap_mutf7_sym(i as int));
        v.push(b);
        i = i + 1;
    }
    proof {
        assert(v@ =~= imap_mutf7_symbols());
    }
    v
}


/// The symbol at position `i` of the bin hex preset alphabet.
pub open spec fn bin_hex_sym(i: int) -> u8 {
    if i < 13 {
        (i + 33) as u8
    } else if i < 20 {
        (i + 35) as u8
    } else if i < 22 {
        (i + 36) as u8
    } else if i < 37 {
        (i + 42) as u8
    } else if i < 44 {
        (i + 43) as u8
    } else if i < 48 {
        (i + 44) as u8
    } else if i < 55 {
        (i + 48) as u8
    } else if i < 61 {
        (i + 49) as u8
    } else {
        (i + 51) as u8
    }
}

/// The bin hex preset alphabet as a symbol sequence.
pub open spec fn bin_hex_symbols() -> Seq<u8> {
    Seq::new(64, |i: int| bin_hex_sym(i))
}

/// The bin hex preset alphabet is a valid symbol set with pad `=`.
pub proof fn lemma_bin_hex_valid()
    ensures
        valid_symbols(bin_hex_symbols(), 61),
{
    assert forall|i: int, j: int| 0 <= i < j < 64 implies bin_hex_symbols()[i]
        != bin_hex_symbols()[j] by {
        assert(bin_hex_sym(i) != bin_hex_sym(j));
    }
}

/// Builds the bin hex preset symbols at run time.
fn bin_hex_bytes() -> (v: Vec<u8>)
    ensures
        v@ == bin_hex_symbols(),
{
    let mut v: Vec<u8> = Vec::new();
    let mut i: usize = 0;
    while i < 64
        invariant
            i <= 64,
            v@.len() == i,
            forall|k: int| 0 <= k < i ==> v@[k] == bin_hex_sym(k),
        decreases 64 - i,
    {
        let b: u8 = if i < 13 {
        (i + 33) as u8
    } else if i < 20 {
        (i + 35) as u8
    } else if i < 22 {
        (i + 36) as u8
    } else if i < 37 {
        (i + 42) as u8
    } else if i < 44 {
        (i + 43) as u8
    } else if i < 48 {
        (i + 44) as u8
    } else if i < 55 {
        (i + 48) as u8
    } else if i < 61 {
        (i + 49) as u8
    } else {
        (i + 51) as u8
    };
        assert(b == bin_hex_sym(i as int));
        v.push(b);
        i = i + 1;
    }
    proof {
        assert(v@ =~= bin_hex_symbols());
    }
    v
}

} // verus!
