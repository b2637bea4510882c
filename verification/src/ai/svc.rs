//! A bagged support-vector classifier that picks a portfolio.
//!
//! Floating-point numbers are kept as the 64-bit words that encode them.
use super::Error;
use crate::scheduler::{Portfolio, SolverInfo};
use crate::text::{decimal, decimal_text};
use vstd::prelude::*;
use vstd::slice::slice_subrange;

verus! {

/// The number that bytes encode, the lowest byte first.
pub open spec fn little_endian(bytes: Seq<u8>) -> nat
    decreases bytes.len(),
{
    if bytes.len() == 0 {
        0
    } else {
        bytes[0] as nat + 256 * little_endian(bytes.skip(1))
    }
}

/// The number that the `n` bytes from `at` on encode.
pub open spec fn number_at(bytes: Seq<u8>, at: int, n: int) -> nat {
    little_endian(bytes.subrange(at, at + n))
}

/// Why a model cannot be loaded.
#[derive(Debug, Clone, Copy, PartialEq, Eq)]
pub enum LoadError {
    /// A section ends behind the end of the file.
    TooShort { expected: usize, got: usize },
    /// The file does not begin as a model does.
    BadMagic([u8; 4]),
    BadVersion(u32),
    /// Bytes are left over.
    TrailingBytes(usize),
}

/// How many features a problem has to have.
pub open spec fn feature_count(bytes: Seq<u8>) -> nat {
    number_at(bytes, 8, 4)
}

/// How many classifiers a model holds.
pub open spec fn svc_count(bytes: Seq<u8>) -> nat {
    number_at(bytes, 12, 4)
}

/// How many support vectors the header says there are.
pub open spec fn vector_count(bytes: Seq<u8>) -> nat {
    number_at(bytes, 16, 8)
}

/// Where the means of the features begin.
pub open spec fn mean_at(bytes: Seq<u8>) -> nat {
    24
}

/// Where the scales of the features begin.
pub open spec fn scale_at(bytes: Seq<u8>) -> nat {
    mean_at(bytes) + 8 * feature_count(bytes)
}

/// Where the kernel widths of the classifiers begin.
pub open spec fn gamma_at(bytes: Seq<u8>) -> nat {
    scale_at(bytes) + 8 * feature_count(bytes)
}

/// Where the intercepts of the classifiers begin.
pub open spec fn intercept_at(bytes: Seq<u8>) -> nat {
    gamma_at(bytes) + 8 * svc_count(bytes)
}

/// Where the slopes of the classifiers' probabilities begin.
pub open spec fn prob_a_at(bytes: Seq<u8>) -> nat {
    intercept_at(bytes) + 8 * svc_count(bytes)
}

/// Where the offsets of the classifiers' probabilities begin.
pub open spec fn prob_b_at(bytes: Seq<u8>) -> nat {
    prob_a_at(bytes) + 8 * svc_count(bytes)
}

/// Where the counts of support vectors begin.
pub open spec fn counts_at(bytes: Seq<u8>) -> nat {
    prob_b_at(bytes) + 8 * svc_count(bytes)
}

/// Where the count of the support vectors of the `k`-th classifier stands.
pub open spec fn count_at(bytes: Seq<u8>, k: nat) -> nat {
    counts_at(bytes) + 4 * k
}

/// How many support vectors the first `k` classifiers have.
pub open spec fn vectors_before(bytes: Seq<u8>, k: nat) -> nat
    decreases k,
{
    if k == 0 {
        0
    } else {
        vectors_before(bytes, (k - 1) as nat) + number_at(
            bytes,
            count_at(bytes, (k - 1) as nat) as int,
            4,
        )
    }
}

/// Where the support vectors begin.
pub open spec fn vectors_at(bytes: Seq<u8>) -> nat {
    count_at(bytes, svc_count(bytes))
}

/// Where the coefficients of the support vectors begin.
pub open spec fn coefficients_at(bytes: Seq<u8>) -> nat {
    vectors_at(bytes) + 8 * (vector_count(bytes) * feature_count(bytes))
}

/// Where a model ends.
pub open spec fn end_at(bytes: Seq<u8>) -> nat {
    coefficients_at(bytes) + 8 * vector_count(bytes)
}

/// The error for a file that ends before `expected`.
pub open spec fn too_short(bytes: Seq<u8>, expected: nat) -> Option<LoadError> {
    Some(LoadError::TooShort { expected: expected as usize, got: bytes.len() as usize })
}

/// The letters that a model begins with.
pub open spec fn magic() -> Seq<u8> {
    seq![0x53u8, 0x56u8, 0x43u8, 0x42u8]
}

/// What is wrong with a file, if it cannot be loaded: the first section that is cut short, or a
/// header that is not a model's, or bytes that are left over.
pub open spec fn load_error(bytes: Seq<u8>) -> Option<LoadError> {
    let len = bytes.len();
    if len < 4 {
        too_short(bytes, 4)
    } else if bytes.take(4) != magic() {
        Some(LoadError::BadMagic([bytes[0], bytes[1], bytes[2], bytes[3]]))
    } else if len < 8 {
        too_short(bytes, 8)
    } else if number_at(bytes, 4, 4) != 1 {
        Some(LoadError::BadVersion(number_at(bytes, 4, 4) as u32))
    } else if len < 12 {
        too_short(bytes, 12)
    } else if len < 16 {
        too_short(bytes, 16)
    } else if len < 24 {
        too_short(bytes, 24)
    } else if len < scale_at(bytes) {
        too_short(bytes, scale_at(bytes))
    } else if len < gamma_at(bytes) {
        too_short(bytes, gamma_at(bytes))
    } else if len < intercept_at(bytes) {
        too_short(bytes, intercept_at(bytes))
    } else if len < prob_a_at(bytes) {
        too_short(bytes, prob_a_at(bytes))
    } else if len < prob_b_at(bytes) {
        too_short(bytes, prob_b_at(bytes))
    } else if len < counts_at(bytes) {
        too_short(bytes, counts_at(bytes))
    } else if len < vectors_at(bytes) {
        let whole = (len - counts_at(bytes)) / 4;
        too_short(bytes, count_at(bytes, (whole + 1) as nat))
    } else if len < coefficients_at(bytes) {
        too_short(bytes, coefficients_at(bytes))
    } else if len < end_at(bytes) {
        too_short(bytes, end_at(bytes))
    } else if len > end_at(bytes) {
        Some(LoadError::TrailingBytes((len - end_at(bytes)) as usize))
    } else {
        None
    }
}

/// Whether a file begins as a model of the known version does.
pub open spec fn has_header(bytes: Seq<u8>) -> bool {
    bytes.len() >= 24 && bytes.take(4) == magic() && number_at(bytes, 4, 4) == 1
}

/// Whether the sizes that a file gives fit the machine, and the counts of support vectors, where
/// they are all there, add up to what the header says.
pub open spec fn is_consistent(bytes: Seq<u8>) -> bool {
    has_header(bytes) ==> {
        &&& vectors_at(bytes) <= usize::MAX
        &&& bytes.len() >= vectors_at(bytes) ==> {
            &&& vectors_before(bytes, svc_count(bytes)) == vector_count(bytes)
            &&& vector_count(bytes) <= usize::MAX
            &&& coefficients_at(bytes) <= usize::MAX
            &&& bytes.len() >= coefficients_at(bytes) ==> end_at(bytes) <= usize::MAX
        }
    }
}

/// The `n` words from `at` on.
pub open spec fn words_at(bytes: Seq<u8>, at: nat, n: nat) -> Seq<u64> {
    Seq::new(n, |i: int| number_at(bytes, at + 8 * i, 8) as u64)
}

/// A bag of support-vector classifiers.
#[derive(Debug)]
pub struct BagSvc {
    pub n_features: usize,
    pub n_svcs: usize,
    pub scaler_mean: Vec<u64>,
    pub scaler_scale: Vec<u64>,
    pub gamma: Vec<u64>,
    pub intercept: Vec<u64>,
    pub prob_a: Vec<u64>,
    pub prob_b: Vec<u64>,
    /// Where the support vectors of each classifier begin, and at the end, where the last ones end.
    pub sv_offsets: Vec<usize>,
    pub support_vectors: Vec<u64>,
    pub dual_coef: Vec<u64>,
}

impl BagSvc {
    /// Whether this is what the file says.
    pub open spec fn is_read_from(&self, bytes: Seq<u8>) -> bool {
        let features = feature_count(bytes);
        let svcs = svc_count(bytes);
        let vectors = vector_count(bytes);
        &&& self.n_features == features
        &&& self.n_svcs == svcs
        &&& self.scaler_mean@ == words_at(bytes, mean_at(bytes), features)
        &&& self.scaler_scale@ == words_at(bytes, scale_at(bytes), features)
        &&& self.gamma@ == words_at(bytes, gamma_at(bytes), svcs)
        &&& self.intercept@ == words_at(bytes, intercept_at(bytes), svcs)
        &&& self.prob_a@ == words_at(bytes, prob_a_at(bytes), svcs)
        &&& self.prob_b@ == words_at(bytes, prob_b_at(bytes), svcs)
        &&& self.sv_offsets@ == Seq::new(
            svcs + 1,
            |k: int| vectors_before(bytes, k as nat) as usize,
        )
        &&& self.support_vectors@ == words_at(bytes, vectors_at(bytes), vectors * features)
        &&& self.dual_coef@ == words_at(bytes, coefficients_at(bytes), vectors)
    }
}

struct Reader<'a> {
    buf: &'a [u8],
    pos: usize,
}

impl<'a> Reader<'a> {
    spec fn wf(&self) -> bool {
        self.pos <= self.buf@.len()
    }

    fn new(buf: &'a [u8]) -> (r: Self)
        ensures
            r.wf(),
            r.buf == buf,
            r.pos == 0,
    {
        Reader { buf, pos: 0 }
    }

    fn remaining(&self) -> (r: usize)
        requires
            self.wf(),
        ensures
            r == self.buf@.len() - self.pos,
    {
        self.buf.len() - self.pos
    }

    fn is_empty(&self) -> (r: bool)
        ensures
            r == (self.pos == self.buf@.len()),
    {
        self.pos == self.buf.len()
    }

    /// The next `n` bytes.
    fn take(&mut self, n: usize) -> (r: Result<&'a [u8], LoadError>)
        requires
            old(self).wf(),
            old(self).pos + n <= usize::MAX,
        ensures
            final(self).wf(),
            final(self).buf == old(self).buf,
            old(self).pos + n <= old(self).buf@.len() ==> {
                &&& r matches Ok(s)
                &&& s@ == old(self).buf@.subrange(old(self).pos as int, old(self).pos + n)
                &&& final(self).pos == old(self).pos + n
            },
            old(self).pos + n > old(self).buf@.len() ==> {
                &&& r == Err::<&'a [u8], LoadError>(
                    LoadError::TooShort {
                        expected: (old(self).pos + n) as usize,
                        got: old(self).buf@.len() as usize,
                    },
                )
                &&& final(self).pos == old(self).pos
            },
    {
        if self.pos + n > self.buf.len() {
            return Err(LoadError::TooShort { expected: self.pos + n, got: self.buf.len() });
        }
        let s = slice_subrange(self.buf, self.pos, self.pos + n);
        self.pos += n;
        Ok(s)
    }

    /// The next four bytes as a number.
    fn read_u32(&mut self) -> (r: Result<u32, LoadError>)
        requires
            old(self).wf(),
            old(self).pos + 4 <= usize::MAX,
        ensures
            final(self).wf(),
            final(self).buf == old(self).buf,
            old(self).pos + 4 <= old(self).buf@.len() ==> {
                &&& r matches Ok(n)
                &&& n == number_at(old(self).buf@, old(self).pos as int, 4)
                &&& final(self).pos == old(self).pos + 4
            },
            old(self).pos + 4 > old(self).buf@.len() ==> {
                &&& r == Err::<u32, LoadError>(
                    LoadError::TooShort {
                        expected: (old(self).pos + 4) as usize,
                        got: old(self).buf@.len() as usize,
                    },
                )
                &&& final(self).pos == old(self).pos
            },
    {
        match self.take(4) {
            Ok(b) => {
                assert(b@.subrange(0, 4) =~= b@);
                Ok(half_word(b, 0))
            },
            Err(e) => Err(e),
        }
    }
}

/// The number that four bytes encode.
fn half_word(b: &[u8], at: usize) -> (r: u32)
    requires
        at + 4 <= b@.len(),
    ensures
        r == number_at(b@, at as int, 4),
{
    proof {
        reveal_with_fuel(little_endian, 5);
    }
    b[at] as u32 + 0x100 * b[at + 1] as u32 + 0x1_0000 * b[at + 2] as u32 + 0x100_0000 * b[at
        + 3] as u32
}

/// The number that eight bytes encode.
fn word(b: &[u8], at: usize) -> (r: u64)
    requires
        at + 8 <= b@.len(),
    ensures
        r == number_at(b@, at as int, 8),
{
    proof {
        reveal_with_fuel(little_endian, 9);
    }
    b[at] as u64 + 0x100 * b[at + 1] as u64 + 0x1_0000 * b[at + 2] as u64 + 0x100_0000 * b[at
        + 3] as u64 + 0x1_0000_0000 * b[at + 4] as u64 + 0x100_0000_0000 * b[at + 5] as u64
        + 0x1_0000_0000_0000 * b[at + 6] as u64 + 0x100_0000_0000_0000 * b[at + 7] as u64
}

impl<'a> Reader<'a> {
    /// The next eight bytes as a number.
    fn read_u64(&mut self) -> (r: Result<u64, LoadError>)
        requires
            old(self).wf(),
            old(self).pos + 8 <= usize::MAX,
        ensures
            final(self).wf(),
            final(self).buf == old(self).buf,
            old(self).pos + 8 <= old(self).buf@.len() ==> {
                &&& r matches Ok(n)
                &&& n == number_at(old(self).buf@, old(self).pos as int, 8)
                &&& final(self).pos == old(self).pos + 8
            },
            old(self).pos + 8 > old(self).buf@.len() ==> {
                &&& r == Err::<u64, LoadError>(
                    LoadError::TooShort {
                        expected: (old(self).pos + 8) as usize,
                        got: old(self).buf@.len() as usize,
                    },
                )
                &&& final(self).pos == old(self).pos
            },
    {
        match self.take(8) {
            Ok(b) => {
                assert(b@.subrange(0, 8) =~= b@);
                Ok(word(b, 0))
            },
            Err(e) => Err(e),
        }
    }

    /// The next `n` words.
    fn read_words(&mut self, n: usize) -> (r: Result<Vec<u64>, LoadError>)
        requires
            old(self).wf(),
            old(self).pos + 8 * n <= usize::MAX,
        ensures
            final(self).wf(),
            final(self).buf == old(self).buf,
            old(self).pos + 8 * n <= old(self).buf@.len() ==> {
                &&& r matches Ok(words)
                &&& words@ == words_at(old(self).buf@, old(self).pos as nat, n as nat)
                &&& final(self).pos == old(self).pos + 8 * n
            },
            old(self).pos + 8 * n > old(self).buf@.len() ==> {
                &&& r == Err::<Vec<u64>, LoadError>(
                    LoadError::TooShort {
                        expected: (old(self).pos + 8 * n) as usize,
                        got: old(self).buf@.len() as usize,
                    },
                )
                &&& final(self).pos == old(self).pos
            },
    {
        let ghost start = self.pos;
        let ghost whole = self.buf@;
        match self.take(n * 8) {
            Ok(b) => {
                let mut words: Vec<u64> = Vec::new();
                let mut i: usize = 0;
                while i < n
                    invariant
                        i <= n,
                        b@.len() == 8 * n,
                        8 * n <= usize::MAX,
                        start + 8 * n <= whole.len(),
                        b@ == whole.subrange(start as int, start + 8 * n),
                        words@ == words_at(whole, start as nat, i as nat),
                    decreases n - i,
                {
                    assert(b@.subrange(8 * i as int, 8 * i + 8) =~= whole.subrange(
                        start + 8 * i,
                        start + 8 * i + 8,
                    ));
                    words.push(word(b, 8 * i));
                    i += 1;
                    assert(words@ =~= words_at(whole, start as nat, i as nat));
                }
                Ok(words)
            },
            Err(e) => Err(e),
        }
    }
}

impl BagSvc {
    /// Loads a model.
    pub fn from_bytes(bytes: &[u8]) -> (r: Result<Self, LoadError>)
        requires
            is_consistent(bytes@),
        ensures
            match r {
                Ok(bag) => load_error(bytes@) is None && bag.is_read_from(bytes@),
                Err(e) => load_error(bytes@) == Some(e),
            },
    {
        let mut r = Reader::new(bytes);
        let start = r.take(4)?;
        let magic = [start[0], start[1], start[2], start[3]];
        proof {
            assert(bytes@.take(4) =~= start@);
            assert(bytes@[0] == start@[0] && bytes@[1] == start@[1] && bytes@[2] == start@[2]
                && bytes@[3] == start@[3]);
            assert([bytes@[0], bytes@[1], bytes@[2], bytes@[3]] =~= magic);
        }
        if magic[0] != 0x53 || magic[1] != 0x56 || magic[2] != 0x43 || magic[3] != 0x42 {
            return Err(LoadError::BadMagic(magic));
        }
        assert(bytes@.take(4) =~= self::magic());
        let version = r.read_u32()?;
        if version != 1 {
            return Err(LoadError::BadVersion(version));
        }
        let n_features = r.read_u32()? as usize;
        let n_svcs = r.read_u32()? as usize;
        let vectors = r.read_u64()?;
        assert(has_header(bytes@));
        let scaler_mean = r.read_words(n_features)?;
        let scaler_scale = r.read_words(n_features)?;
        let gamma = r.read_words(n_svcs)?;
        let intercept = r.read_words(n_svcs)?;
        let prob_a = r.read_words(n_svcs)?;
        let prob_b = r.read_words(n_svcs)?;
        let sv_offsets = r.read_offsets(n_svcs)?;
        let total_svs = vectors as usize;
        let support_vectors = r.read_words(total_svs * n_features)?;
        let dual_coef = r.read_words(total_svs)?;
        if !r.is_empty() {
            return Err(LoadError::TrailingBytes(r.remaining()));
        }
        Ok(
            BagSvc {
                n_features,
                n_svcs,
                scaler_mean,
                scaler_scale,
                gamma,
                intercept,
                prob_a,
                prob_b,
                sv_offsets,
                support_vectors,
                dual_coef,
            },
        )
    }
}

impl<'a> Reader<'a> {
    /// The next `n` counts, each added to those before it.
    fn read_offsets(&mut self, n: usize) -> (r: Result<Vec<usize>, LoadError>)
        requires
            old(self).wf(),
            has_header(old(self).buf@),
            is_consistent(old(self).buf@),
            n == svc_count(old(self).buf@),
            old(self).pos == count_at(old(self).buf@, 0),
        ensures
            final(self).wf(),
            final(self).buf == old(self).buf,
            ({
                let bytes = old(self).buf@;
                if bytes.len() >= vectors_at(bytes) {
                    &&& r matches Ok(offsets)
                    &&& offsets@ == Seq::new(
                        svc_count(bytes) + 1,
                        |k: int| vectors_before(bytes, k as nat) as usize,
                    )
                    &&& final(self).pos == vectors_at(bytes)
                } else {
                    let whole = (bytes.len() - counts_at(bytes)) / 4;
                    r matches Err(e) && too_short(bytes, count_at(bytes, (whole + 1) as nat))
                        == Some(e)
                }
            }),
    {
        let ghost bytes = self.buf@;
        let ghost first = counts_at(bytes) as int;
        let mut counts: Vec<u32> = Vec::new();
        let mut i: usize = 0;
        while i < n
            invariant
                i <= n,
                self.wf(),
                self.buf@ == bytes,
                self.buf == old(self).buf,
                first + 4 * n <= usize::MAX,
                self.pos == first + 4 * i,
                first == counts_at(bytes),
                first + 4 * n == vectors_at(bytes),
                counts@.len() == i,
                forall|k: int|
                    0 <= k < i ==> #[trigger] counts@[k] == number_at(bytes, first + 4 * k, 4),
            decreases n - i,
        {
            match self.read_u32() {
                Ok(count) => {
                    counts.push(count);
                },
                Err(e) => {
                    assert((bytes.len() - first) / 4 == i);
                    return Err(e);
                },
            }
            i += 1;
        }
        let mut offsets: Vec<usize> = Vec::new();
        let mut acc: usize = 0;
        offsets.push(acc);
        let mut k: usize = 0;
        assert(offsets@ =~= Seq::new(1, |j: int| vectors_before(bytes, j as nat) as usize));
        while k < n
            invariant
                k <= n,
                n == svc_count(bytes),
                counts@.len() == n,
                forall|j: int|
                    0 <= j < n ==> #[trigger] counts@[j] == number_at(bytes, first + 4 * j, 4),
                first == counts_at(bytes),
                vectors_before(bytes, n as nat) <= usize::MAX,
                acc == vectors_before(bytes, k as nat),
                offsets@ == Seq::new(
                    (k + 1) as nat,
                    |j: int| vectors_before(bytes, j as nat) as usize,
                ),
            decreases n - k,
        {
            proof {
                lemma_vectors_grow(bytes, (k + 1) as nat, n as nat);
            }
            acc += counts[k] as usize;
            offsets.push(acc);
            k += 1;
            assert(offsets@ =~= Seq::new(
                (k + 1) as nat,
                |j: int| vectors_before(bytes, j as nat) as usize,
            ));
        }
        Ok(offsets)
    }
}

/// More classifiers have no fewer support vectors.
proof fn lemma_vectors_grow(bytes: Seq<u8>, i: nat, j: nat)
    requires
        i <= j,
    ensures
        vectors_before(bytes, i) <= vectors_before(bytes, j),
    decreases j,
{
    if i < j {
        lemma_vectors_grow(bytes, i, (j - 1) as nat);
    }
}

/// Whether the sizes that a file gives fit the machine, and the counts of support vectors, where
/// they are all there, add up to what the header says.
pub fn consistent(bytes: &[u8]) -> (r: bool)
    ensures
        r == is_consistent(bytes@),
{
    if bytes.len() < 24 {
        return true;
    }
    let start = [bytes[0], bytes[1], bytes[2], bytes[3]];
    if start[0] != 0x53 || start[1] != 0x56 || start[2] != 0x43 || start[3] != 0x42 {
        assert(bytes@.take(4)[0] == start[0] && bytes@.take(4)[1] == start[1] && bytes@.take(4)[2]
            == start[2] && bytes@.take(4)[3] == start[3]);
        return true;
    }
    assert(bytes@.take(4) =~= self::magic());
    if half_word(bytes, 4) != 1 {
        return true;
    }
    let features: u64 = half_word(bytes, 8) as u64;
    let svcs: u64 = half_word(bytes, 12) as u64;
    let vectors: u64 = word(bytes, 16);
    let counts: u64 = 24 + 16 * features + 32 * svcs;
    let ghost first = counts_at(bytes@) as int;
    assert(counts == first);
    assert(counts + 4 * svcs == vectors_at(bytes@));
    if counts + 4 * svcs > usize::MAX as u64 {
        return false;
    }
    if (bytes.len() as u64) < counts + 4 * svcs {
        return true;
    }
    let mut sum: u64 = 0;
    let mut k: u64 = 0;
    while k < svcs
        invariant
            k <= svcs <= 0xffff_ffff,
            counts == first,
            first == counts_at(bytes@),
            counts + 4 * svcs <= bytes@.len(),
            counts + 4 * svcs <= usize::MAX,
            sum <= 0xffff_ffff * k,
            sum == vectors_before(bytes@, k as nat),
        decreases svcs - k,
    {
        sum += half_word(bytes, (counts + 4 * k) as usize) as u64;
        k += 1;
    }
    if sum != vectors {
        return false;
    }
    let wide: u128 = vectors as u128;
    assert(wide * features <= 0xffff_ffff_ffff_ffff * 0xffff_ffff) by (nonlinear_arith)
        requires
            0 <= wide <= 0xffff_ffff_ffff_ffff,
            0 <= features <= 0xffff_ffff,
    ;
    let most: u128 = usize::MAX as u128;
    let coefficients: u128 = (counts + 4 * svcs) as u128 + 8 * (wide * features as u128);
    assert(coefficients == coefficients_at(bytes@));
    if wide > most || coefficients > most {
        return false;
    }
    (bytes.len() as u128) < coefficients || coefficients + 8 * wide <= most
}

/// An error in words.
pub open spec fn load_message(e: LoadError) -> Seq<char> {
    match e {
        LoadError::TooShort { expected, got } => "buffer too short: expected at least "@ + decimal(
            expected as nat,
        ) + " bytes, got "@ + decimal(got as nat),
        LoadError::BadMagic(m) => "bad magic: expected b\"SVCB\", got ["@ + decimal(m[0] as nat)
            + ", "@ + decimal(m[1] as nat) + ", "@ + decimal(m[2] as nat) + ", "@ + decimal(
            m[3] as nat,
        ) + "]"@,
        LoadError::BadVersion(version) => "unsupported version: "@ + decimal(version as nat),
        LoadError::TrailingBytes(n) => "trailing bytes after parsing: "@ + decimal(n as nat),
    }
}

impl LoadError {
    /// The error in words.
    pub fn message(&self) -> (r: String)
        ensures
            r@ == load_message(*self),
    {
        match self {
            LoadError::TooShort { expected, got } => {
                let mut m = "buffer too short: expected at least ".to_owned();
                m.append(decimal_text(*expected as u64).as_str());
                m.append(" bytes, got ");
                m.append(decimal_text(*got as u64).as_str());
                m
            },
            LoadError::BadMagic(magic) => {
                let mut m = "bad magic: expected b\"SVCB\", got [".to_owned();
                m.append(decimal_text(magic[0] as u64).as_str());
                m.append(", ");
                m.append(decimal_text(magic[1] as u64).as_str());
                m.append(", ");
                m.append(decimal_text(magic[2] as u64).as_str());
                m.append(", ");
                m.append(decimal_text(magic[3] as u64).as_str());
                m.append("]");
                m
            },
            LoadError::BadVersion(version) => {
                let mut m = "unsupported version: ".to_owned();
                m.append(decimal_text(*version as u64).as_str());
                m
            },
            LoadError::TrailingBytes(n) => {
                let mut m = "trailing bytes after parsing: ".to_owned();
                m.append(decimal_text(*n as u64).as_str());
                m
            },
        }
    }
}

/// A portfolio as plain values.
pub open spec fn entries(portfolio: Seq<SolverInfo>) -> Seq<(Seq<char>, usize)> {
    portfolio.map_values(|info: SolverInfo| (info.name@, info.cores))
}

/// The portfolio of the model `k1`.
pub open spec fn k1_entries() -> Seq<(Seq<char>, usize)> {
    seq![
        ("cp-sat"@, 1usize),
        ("org.chuffed.chuffed"@, 1usize),
        ("org.gecode.gecode"@, 2usize),
        ("org.minizinc.mip.gurobi"@, 2usize),
        ("org.picat-lang.picat"@, 1usize),
        ("yuck"@, 1usize),
    ]
}

/// The portfolio of the model `ek1`.
pub open spec fn ek1_entries() -> Seq<(Seq<char>, usize)> {
    seq![
        ("cp-sat"@, 1usize),
        ("dexter"@, 1usize),
        ("nl.tudelft.algorithmics.pumpkin"@, 1usize),
        ("org.choco.choco"@, 1usize),
        ("org.minizinc.mip.gurobi"@, 2usize),
        ("org.picat-lang.picat"@, 1usize),
        ("yuck"@, 1usize),
    ]
}

fn k1_portfolio() -> (r: Portfolio)
    ensures
        entries(r@) == k1_entries(),
{
    let mut portfolio: Portfolio = Vec::new();
    portfolio.push(SolverInfo::new("cp-sat".to_owned(), 1));
    portfolio.push(SolverInfo::new("org.chuffed.chuffed".to_owned(), 1));
    portfolio.push(SolverInfo::new("org.gecode.gecode".to_owned(), 2));
    portfolio.push(SolverInfo::new("org.minizinc.mip.gurobi".to_owned(), 2));
    portfolio.push(SolverInfo::new("org.picat-lang.picat".to_owned(), 1));
    portfolio.push(SolverInfo::new("yuck".to_owned(), 1));
    assert(entries(portfolio@) =~= k1_entries());
    portfolio
}

fn ek1_portfolio() -> (r: Portfolio)
    ensures
        entries(r@) == ek1_entries(),
{
    let mut portfolio: Portfolio = Vec::new();
    portfolio.push(SolverInfo::new("cp-sat".to_owned(), 1));
    portfolio.push(SolverInfo::new("dexter".to_owned(), 1));
    portfolio.push(SolverInfo::new("nl.tudelft.algorithmics.pumpkin".to_owned(), 1));
    portfolio.push(SolverInfo::new("org.choco.choco".to_owned(), 1));
    portfolio.push(SolverInfo::new("org.minizinc.mip.gurobi".to_owned(), 2));
    portfolio.push(SolverInfo::new("org.picat-lang.picat".to_owned(), 1));
    portfolio.push(SolverInfo::new("yuck".to_owned(), 1));
    assert(entries(portfolio@) =~= ek1_entries());
    portfolio
}

/// An AI that asks a classifier whether one solver does best alone.
#[derive(Debug)]
pub struct SvcAi {
    pub bag: BagSvc,
    pub portfolio: Portfolio,
}

impl SvcAi {
    /// The AI of the model `k1`, which is loaded from the given bytes.
    pub fn k1(bytes: &[u8]) -> (r: Result<Self, Error>)
        requires
            is_consistent(bytes@),
        ensures
            match load_error(bytes@) {
                None => r matches Ok(ai) && ai.bag.is_read_from(bytes@) && entries(ai.portfolio@)
                    == k1_entries(),
                Some(e) => r matches Err(Error::Other(m)) && m@ == "svc_k1 model load: "@
                    + load_message(e),
            },
    {
        match BagSvc::from_bytes(bytes) {
            Ok(bag) => Ok(SvcAi { bag, portfolio: k1_portfolio() }),
            Err(e) => {
                let mut m = "svc_k1 model load: ".to_owned();
                m.append(e.message().as_str());
                Err(Error::Other(m))
            },
        }
    }

    /// The AI of the model `ek1`, which is loaded from the given bytes.
    pub fn ek1(bytes: &[u8]) -> (r: Result<Self, Error>)
        requires
            is_consistent(bytes@),
        ensures
            match load_error(bytes@) {
                None => r matches Ok(ai) && ai.bag.is_read_from(bytes@) && entries(ai.portfolio@)
                    == ek1_entries(),
                Some(e) => r matches Err(Error::Other(m)) && m@ == "svc_ek1 model load: "@
                    + load_message(e),
            },
    {
        match BagSvc::from_bytes(bytes) {
            Ok(bag) => Ok(SvcAi { bag, portfolio: ek1_portfolio() }),
            Err(e) => {
                let mut m = "svc_ek1 model load: ".to_owned();
                m.append(e.message().as_str());
                Err(Error::Other(m))
            },
        }
    }

    /// Refuses a problem that has not as many features as the classifier wants.
    pub fn check_feature_count(&self, got: usize) -> (r: Result<(), Error>)
        ensures
            if got == self.bag.n_features {
                r is Ok
            } else {
                r matches Err(Error::Other(m)) && m@ == "SVC AI expected "@ + decimal(
                    self.bag.n_features as nat,
                ) + " features, got "@ + decimal(got as nat)
            },
    {
        if got != self.bag.n_features {
            let mut m = "SVC AI expected ".to_owned();
            m.append(decimal_text(self.bag.n_features as u64).as_str());
            m.append(" features, got ");
            m.append(decimal_text(got as u64).as_str());
            return Err(Error::Other(m));
        }
        Ok(())
    }

    /// The portfolio for a problem of the class that was predicted: for class 0 one solver on eight
    /// cores, else the model's portfolio.
    pub fn portfolio_for(&self, predicted: usize) -> (r: Portfolio)
        ensures
            entries(r@) == if predicted == 0 {
                seq![("cp-sat"@, 8usize)]
            } else {
                entries(self.portfolio@)
            },
    {
        let mut out: Portfolio = Vec::new();
        if predicted == 0 {
            out.push(SolverInfo::new("cp-sat".to_owned(), 8));
            assert(entries(out@) =~= seq![("cp-sat"@, 8usize)]);
        } else {
            let mut i: usize = 0;
            while i < self.portfolio.len()
                invariant
                    i <= self.portfolio@.len(),
                    entries(out@) == entries(self.portfolio@).take(i as int),
                decreases self.portfolio@.len() - i,
            {
                let ghost before = out@;
                let info = SolverInfo::new(self.portfolio[i].name.clone(), self.portfolio[i].cores);
                assert(entries(before.push(info)) =~= entries(before).push(
                    entries(self.portfolio@)[i as int],
                ));
                out.push(info);
                i += 1;
                assert(entries(out@) =~= entries(self.portfolio@).take(i as int));
            }
            assert(entries(out@) =~= entries(self.portfolio@));
        }
        out
    }
}

/// The support vectors of the classifiers follow one another, and every section is as long as the
/// header says.
pub proof fn law_sections_agree(bag: BagSvc, bytes: Seq<u8>)
    requires
        is_consistent(bytes),
        load_error(bytes) is None,
        bag.is_read_from(bytes),
    ensures
        bag.scaler_mean@.len() == bag.n_features && bag.scaler_scale@.len() == bag.n_features,
        bag.gamma@.len() == bag.n_svcs && bag.intercept@.len() == bag.n_svcs,
        bag.prob_a@.len() == bag.n_svcs && bag.prob_b@.len() == bag.n_svcs,
        bag.sv_offsets@.len() == bag.n_svcs + 1,
        bag.sv_offsets@[0] == 0,
        forall|i: int, j: int|
            0 <= i <= j <= bag.n_svcs ==> #[trigger] bag.sv_offsets@[i]
                <= #[trigger] bag.sv_offsets@[j],
        bag.sv_offsets@[bag.n_svcs as int] == bag.dual_coef@.len(),
        bag.support_vectors@.len() == bag.dual_coef@.len() * bag.n_features,
        bytes.len() == end_at(bytes),
{
    assert forall|i: int, j: int| 0 <= i <= j <= bag.n_svcs implies #[trigger] bag.sv_offsets@[i]
        <= #[trigger] bag.sv_offsets@[j] by {
        lemma_vectors_grow(bytes, i as nat, j as nat);
        lemma_vectors_grow(bytes, j as nat, bag.n_svcs as nat);
    }
}

/// Numbers that stand in the part that two files begin with alike are alike.
proof fn lemma_number_in_part(a: Seq<u8>, b: Seq<u8>, len: int, at: int, n: int)
    requires
        0 <= len <= a.len(),
        len <= b.len(),
        a.take(len) == b.take(len),
        0 <= at,
        0 <= n,
        at + n <= len,
    ensures
        number_at(a, at, n) == number_at(b, at, n),
{
    assert(a.subrange(at, at + n) =~= a.take(len).subrange(at, at + n));
    assert(b.subrange(at, at + n) =~= b.take(len).subrange(at, at + n));
}

/// The header alone says where the sections of a file begin.
proof fn lemma_same_header(a: Seq<u8>, b: Seq<u8>, len: int)
    requires
        24 <= len <= a.len(),
        len <= b.len(),
        a.take(len) == b.take(len),
    ensures
        number_at(a, 4, 4) == number_at(b, 4, 4),
        feature_count(a) == feature_count(b),
        svc_count(a) == svc_count(b),
        vector_count(a) == vector_count(b),
        a.take(4) == b.take(4),
        has_header(a) == has_header(b),
{
    lemma_number_in_part(a, b, len, 4, 4);
    lemma_number_in_part(a, b, len, 8, 4);
    lemma_number_in_part(a, b, len, 12, 4);
    lemma_number_in_part(a, b, len, 16, 8);
    assert(a.take(4) =~= a.take(len).take(4));
    assert(b.take(4) =~= b.take(len).take(4));
}

/// Files that begin alike up to the end of their counts have the same counts.
proof fn lemma_same_counts(a: Seq<u8>, b: Seq<u8>, len: int, k: nat)
    requires
        24 <= len <= a.len(),
        len <= b.len(),
        a.take(len) == b.take(len),
        count_at(a, k) <= len,
    ensures
        vectors_before(a, k) == vectors_before(b, k),
    decreases k,
{
    lemma_same_header(a, b, len);
    if k > 0 {
        lemma_same_counts(a, b, len, (k - 1) as nat);
        lemma_number_in_part(a, b, len, count_at(a, (k - 1) as nat) as int, 4);
    }
}

/// Whether a file is refused as too short, and would not have to be longer than `most`.
pub open spec fn is_too_short(bytes: Seq<u8>, most: nat) -> bool {
    load_error(bytes) matches Some(LoadError::TooShort { expected, got }) && got == bytes.len()
        && bytes.len() < expected <= most
}

/// A model that is cut short in its header is too short.
proof fn lemma_cut_header(bytes: Seq<u8>, n: int)
    requires
        has_header(bytes),
        bytes.len() <= usize::MAX,
        0 <= n < 24,
    ensures
        is_too_short(bytes.take(n), bytes.len()),
{
    let part = bytes.take(n);
    assert(part.take(n) =~= bytes.take(n));
    if n >= 4 {
        assert(part.take(4) =~= bytes.take(4));
    }
    if n >= 8 {
        lemma_number_in_part(bytes, part, n, 4, 4);
    }
}

/// A model that is cut short behind its header is too short.
#[verifier::spinoff_prover]
proof fn lemma_cut_sections(bytes: Seq<u8>, n: int)
    requires
        has_header(bytes),
        bytes.len() == end_at(bytes),
        bytes.len() <= usize::MAX,
        24 <= n < bytes.len(),
    ensures
        is_too_short(bytes.take(n), bytes.len()),
{
    let part = bytes.take(n);
    assert(part.take(n) =~= bytes.take(n));
    lemma_same_header(bytes, part, n);
    let vectors = vector_count(bytes) * feature_count(bytes);
    assert(coefficients_at(part) == vectors_at(part) + 8 * vectors);
    assert(end_at(part) == end_at(bytes));
    if counts_at(part) <= n < vectors_at(part) {
        let whole = (n - counts_at(part)) / 4;
        assert(count_at(part, (whole + 1) as nat) <= vectors_at(part));
    }
}

/// A model that is cut short anywhere is refused as too short: it is told how long it is, and that
/// it would have to be longer.
pub proof fn law_cut_model_is_too_short(bytes: Seq<u8>, n: int)
    requires
        is_consistent(bytes),
        load_error(bytes) is None,
        0 <= n < bytes.len(),
    ensures
        is_consistent(bytes.take(n)),
        is_too_short(bytes.take(n), bytes.len()),
{
    let part = bytes.take(n);
    assert(part.take(n) =~= bytes.take(n));
    assert(has_header(bytes));
    assert(bytes.len() == end_at(bytes));
    if n < 24 {
        lemma_cut_header(bytes, n);
    } else {
        lemma_cut_sections(bytes, n);
        lemma_same_header(bytes, part, n);
        if n >= vectors_at(part) {
            lemma_same_counts(bytes, part, n, svc_count(bytes));
        }
    }
}

/// A model with bytes behind it is refused for just those bytes.
pub proof fn law_longer_model_has_trailing_bytes(bytes: Seq<u8>, more: Seq<u8>)
    requires
        is_consistent(bytes),
        load_error(bytes) is None,
        more.len() > 0,
        bytes.len() + more.len() <= usize::MAX,
    ensures
        is_consistent(bytes + more),
        load_error(bytes + more) == Some(LoadError::TrailingBytes(more.len() as usize)),
{
    let len = bytes.len() as int;
    let longer = bytes + more;
    assert(longer.take(len) =~= bytes.take(len));
    lemma_same_header(bytes, longer, len);
    lemma_same_counts(bytes, longer, len, svc_count(bytes));
}

} // verus!
