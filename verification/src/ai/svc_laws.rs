//! What holds of a model and the bytes that it is loaded from.
use super::svc::{
    count_at, counts_at, ek1_entries, entries, is_consistent, k1_entries, little_endian, load_error,
    load_message, number_at, vectors_before, words_at, BagSvc, LoadError,
};
use crate::scheduler::SolverInfo;
use crate::text::decimal;
use crate::text_laws::law_number_ends_at_a_letter;
use vstd::arithmetic::div_mod::lemma_div_denominator;
use vstd::arithmetic::power::{lemma_pow_positive, pow};
use vstd::prelude::*;

verus! {

/// Whether the `n` bytes from `at` on are the digits of `value` in base 256, the lowest first, and
/// `value` has no more digits.
pub open spec fn spells(bytes: Seq<u8>, at: int, n: int, value: int) -> bool {
    &&& 0 <= value < pow(256, n as nat)
    &&& forall|k: int| 0 <= k < n ==> (value / pow(256, k as nat)) % 256 == #[trigger] bytes[at + k]
}

/// The digits of a number are its lowest one and those of the rest.
proof fn lemma_digit(v: int, r: int, k: nat)
    requires
        0 <= v,
        v / 256 == r,
        k > 0,
    ensures
        pow(256, k) == 256 * pow(256, (k - 1) as nat),
        v / pow(256, k) == r / pow(256, (k - 1) as nat),
{
    reveal(pow);
    let p = pow(256, (k - 1) as nat);
    lemma_pow_positive(256, (k - 1) as nat);
    lemma_div_denominator(v, 256, p);
}

/// The number that bytes encode has these bytes for its digits.
#[verifier::spinoff_prover]
proof fn lemma_little_endian(bytes: Seq<u8>)
    ensures
        little_endian(bytes) < pow(256, bytes.len()),
        forall|k: int|
            0 <= k < bytes.len() ==> (little_endian(bytes) as int / pow(256, k as nat)) % 256
                == #[trigger] bytes[k],
    decreases bytes.len(),
{
    assert(pow(256, 0) == 1) by {
        reveal(pow);
    }
    if bytes.len() > 0 {
        let rest = bytes.skip(1);
        lemma_little_endian(rest);
        let r = little_endian(rest) as int;
        let v = little_endian(bytes) as int;
        assert(v == bytes[0] + 256 * r);
        assert(v / 256 == r && v % 256 == bytes[0]);
        lemma_digit(v, r, bytes.len());
        assert(pow(256, bytes.len()) == 256 * pow(256, rest.len()));
        assert forall|k: int| 0 <= k < bytes.len() implies (v / pow(256, k as nat)) % 256
            == #[trigger] bytes[k] by {
            if k == 0 {
                assert(v / 1 == v);
            } else {
                lemma_digit(v, r, k as nat);
                assert((r / pow(256, (k - 1) as nat)) % 256 == rest[k - 1]);
                assert(bytes[k] == rest[k - 1]);
            }
        }
    }
}

/// A number that is read from a file has the bytes that it was read from for its digits.
pub proof fn law_number_spells_its_bytes(bytes: Seq<u8>, at: int, n: int)
    requires
        0 <= at,
        0 <= n,
        at + n <= bytes.len(),
    ensures
        spells(bytes, at, n, number_at(bytes, at, n) as int),
{
    let part = bytes.subrange(at, at + n);
    lemma_little_endian(part);
    assert forall|k: int| 0 <= k < n implies (number_at(bytes, at, n) as int / pow(256, k as nat))
        % 256 == #[trigger] bytes[at + k] by {
        assert(part[k] == bytes[at + k]);
    }
}

/// Eight digits in base 256 make a word.
proof fn lemma_word_size()
    ensures
        pow(256, 8) == 0x1_0000_0000_0000_0000,
        pow(256, 4) == 0x1_0000_0000,
{
    reveal_with_fuel(pow, 9);
}

/// Each word that is read encodes back to the bytes that it was read from.
pub proof fn law_words_encode_back(bytes: Seq<u8>, at: nat, n: nat, i: int, k: int)
    requires
        at + 8 * n <= bytes.len(),
        0 <= i < n,
        0 <= k < 8,
    ensures
        words_at(bytes, at, n).len() == n,
        (words_at(bytes, at, n)[i] as int / pow(256, k as nat)) % 256 == bytes[at + 8 * i + k],
{
    lemma_word(bytes, at, n, i);
}

proof fn lemma_word(bytes: Seq<u8>, at: nat, n: nat, i: int)
    requires
        at + 8 * n <= bytes.len(),
        0 <= i < n,
    ensures
        spells(bytes, at + 8 * i, 8, words_at(bytes, at, n)[i] as int),
{
    lemma_word_size();
    law_number_spells_its_bytes(bytes, at + 8 * i, 8);
}

/// Numbers with the same digits are the same number.
proof fn lemma_same_digits(a: Seq<u8>, b: Seq<u8>, at: int, other: int, n: int, value: int)
    requires
        spells(a, at, n, value),
        spells(b, other, n, value),
        0 <= n,
    ensures
        forall|k: int| 0 <= k < n ==> #[trigger] a[at + k] == b[other + k],
{
    assert forall|k: int| 0 <= k < n implies #[trigger] a[at + k] == b[other + k] by {
        assert(b[other + k] == (value / pow(256, k as nat)) % 256);
    }
}

/// Files that differ in a byte of a section load to different words.
pub proof fn law_words_tell_bytes_apart(a: Seq<u8>, b: Seq<u8>, at: nat, n: nat)
    requires
        at + 8 * n <= a.len(),
        at + 8 * n <= b.len(),
        words_at(a, at, n) == words_at(b, at, n),
    ensures
        a.subrange(at as int, (at + 8 * n) as int) == b.subrange(at as int, (at + 8 * n) as int),
{
    assert forall|j: int| at <= j < at + 8 * n implies a[j] == b[j] by {
        let i = (j - at) / 8;
        let k = (j - at) % 8;
        assert(0 <= i < n && j == at + 8 * i + k);
        lemma_word(a, at, n, i);
        lemma_word(b, at, n, i);
        lemma_same_digits(a, b, at + 8 * i, at + 8 * i, 8, words_at(a, at, n)[i] as int);
        assert(a[at + 8 * i + k] == b[at + 8 * i + k]);
    }
    assert(a.subrange(at as int, (at + 8 * n) as int) =~= b.subrange(at as int, (at + 8 * n) as int));
}

/// A list of words is what stands in the file from `at` on.
pub open spec fn stands_at(bytes: Seq<u8>, at: int, words: Seq<u64>) -> bool {
    forall|i: int| 0 <= i < words.len() ==> spells(bytes, at + 8 * i, 8, #[trigger] words[i] as int)
}

proof fn lemma_words_stand(bytes: Seq<u8>, at: nat, n: nat)
    requires
        at + 8 * n <= bytes.len(),
    ensures
        stands_at(bytes, at as int, words_at(bytes, at, n)),
{
    let words = words_at(bytes, at, n);
    assert forall|i: int| 0 <= i < words.len() implies spells(
        bytes,
        at + 8 * i,
        8,
        #[trigger] words[i] as int,
    ) by {
        lemma_word(bytes, at, n, i);
    }
}

/// A model that is loaded says what the bytes say. Behind four letters and a version there are the
/// number of features, that of classifiers and that of support vectors; then the means and the scales
/// of the features; the widths, intercepts, slopes and offsets of the classifiers; how many support
/// vectors each classifier has; the support vectors; and their coefficients.
#[verifier::spinoff_prover]
pub proof fn law_model_says_what_the_bytes_say(bag: BagSvc, bytes: Seq<u8>)
    requires
        is_consistent(bytes),
        load_error(bytes) is None,
        bag.is_read_from(bytes),
    ensures
        ({
            let f = bag.n_features as int;
            let s = bag.n_svcs as int;
            let v = bag.dual_coef@.len() as int;
            let counts = 24 + 16 * f + 32 * s;
            let vectors = counts + 4 * s;
            let coefficients = vectors + 8 * (v * f);
            &&& bytes.len() == coefficients + 8 * v
            &&& spells(bytes, 8, 4, f)
            &&& spells(bytes, 12, 4, s)
            &&& spells(bytes, 16, 8, v)
            &&& bag.scaler_mean@.len() == f && stands_at(bytes, 24, bag.scaler_mean@)
            &&& bag.scaler_scale@.len() == f && stands_at(bytes, 24 + 8 * f, bag.scaler_scale@)
            &&& bag.gamma@.len() == s && stands_at(bytes, 24 + 16 * f, bag.gamma@)
            &&& bag.intercept@.len() == s && stands_at(bytes, 24 + 16 * f + 8 * s, bag.intercept@)
            &&& bag.prob_a@.len() == s && stands_at(bytes, 24 + 16 * f + 16 * s, bag.prob_a@)
            &&& bag.prob_b@.len() == s && stands_at(bytes, 24 + 16 * f + 24 * s, bag.prob_b@)
            &&& bag.sv_offsets@.len() == s + 1 && bag.sv_offsets@[0] == 0
            &&& forall|k: int|
                0 <= k < s ==> spells(
                    bytes,
                    counts + 4 * k,
                    4,
                    bag.sv_offsets@[k + 1] - #[trigger] bag.sv_offsets@[k],
                )
            &&& bag.support_vectors@.len() == v * f && stands_at(
                bytes,
                vectors,
                bag.support_vectors@,
            )
            &&& stands_at(bytes, coefficients, bag.dual_coef@)
        }),
{
    let f = bag.n_features as nat;
    let s = bag.n_svcs as nat;
    let v = bag.dual_coef@.len();
    let counts = (24 + 16 * f + 32 * s) as nat;
    let vectors = counts + 4 * s;
    let coefficients = vectors + 8 * (v * f);
    assert(bytes.len() == coefficients + 8 * v);
    assert(v * f >= 0) by (nonlinear_arith)
        requires
            v >= 0,
            f >= 0,
    ;
    law_number_spells_its_bytes(bytes, 8, 4);
    law_number_spells_its_bytes(bytes, 12, 4);
    law_number_spells_its_bytes(bytes, 16, 8);
    lemma_words_stand(bytes, 24, f);
    lemma_words_stand(bytes, 24 + 8 * f, f);
    lemma_words_stand(bytes, 24 + 16 * f, s);
    lemma_words_stand(bytes, 24 + 16 * f + 8 * s, s);
    lemma_words_stand(bytes, 24 + 16 * f + 16 * s, s);
    lemma_words_stand(bytes, 24 + 16 * f + 24 * s, s);
    lemma_words_stand(bytes, vectors, v * f);
    lemma_words_stand(bytes, coefficients, v);
    super::svc::law_sections_agree(bag, bytes);
    lemma_counts_stand(bag, bytes);
}

/// The counts of support vectors stand where they should.
#[verifier::spinoff_prover]
proof fn lemma_counts_stand(bag: BagSvc, bytes: Seq<u8>)
    requires
        is_consistent(bytes),
        load_error(bytes) is None,
        bag.is_read_from(bytes),
    ensures
        forall|k: int|
            0 <= k < bag.n_svcs ==> spells(
                bytes,
                24 + 16 * bag.n_features + 32 * bag.n_svcs + 4 * k,
                4,
                bag.sv_offsets@[k + 1] - #[trigger] bag.sv_offsets@[k],
            ),
{
    let s = bag.n_svcs as nat;
    let first = counts_at(bytes) as int;
    assert(first == 24 + 16 * bag.n_features + 32 * bag.n_svcs);
    assert(first + 4 * s <= bytes.len());
    assert forall|k: int| 0 <= k < s implies spells(
        bytes,
        first + 4 * k,
        4,
        bag.sv_offsets@[k + 1] - #[trigger] bag.sv_offsets@[k],
    ) by {
        law_number_spells_its_bytes(bytes, first + 4 * k, 4);
        assert(count_at(bytes, k as nat) == first + 4 * k);
        lemma_offsets_fit(bytes, k as nat, s);
        lemma_offsets_fit(bytes, (k + 1) as nat, s);
        assert(bag.sv_offsets@[k] == vectors_before(bytes, k as nat));
        assert(bag.sv_offsets@[k + 1] == vectors_before(bytes, (k + 1) as nat));
    }
}

/// The classifiers have no more support vectors together than all of them.
proof fn lemma_offsets_fit(bytes: Seq<u8>, i: nat, j: nat)
    requires
        i <= j,
    ensures
        vectors_before(bytes, i) <= vectors_before(bytes, j),
    decreases j,
{
    if i < j {
        lemma_offsets_fit(bytes, i, (j - 1) as nat);
    }
}

/// Whether a file begins with the letters `SVCB`.
pub open spec fn has_letters(bytes: Seq<u8>) -> bool {
    bytes[0] == 0x53 && bytes[1] == 0x56 && bytes[2] == 0x43 && bytes[3] == 0x42
}

/// Whether a file begins with the letters `SVCB` and the version 1.
pub open spec fn begins_well(bytes: Seq<u8>) -> bool {
    &&& bytes.len() >= 8
    &&& has_letters(bytes)
    &&& bytes[4] == 1 && bytes[5] == 0 && bytes[6] == 0 && bytes[7] == 0
}

/// The version is 1 just if the lowest of its bytes is 1 and the others are 0.
proof fn lemma_version(bytes: Seq<u8>)
    requires
        bytes.len() >= 8,
    ensures
        number_at(bytes, 4, 4) == 1 <==> bytes[4] == 1 && bytes[5] == 0 && bytes[6] == 0 && bytes[7]
            == 0,
        number_at(bytes, 4, 4) <= u32::MAX,
{
    reveal_with_fuel(little_endian, 5);
    let part = bytes.subrange(4, 8);
    assert(part[0] == bytes[4] && part[1] == bytes[5] && part[2] == bytes[6] && part[3]
        == bytes[7]);
    assert(part.skip(1)[0] == part[1]);
    assert(part.skip(1).skip(1)[0] == part[2]);
    assert(part.skip(1).skip(1).skip(1)[0] == part[3]);
    assert(little_endian(part) == part[0] + 256 * (part[1] + 256 * (part[2] + 256 * part[3])));
}

/// A file loads just if it begins as a model of the known version does and is as long as its header
/// says: 24 bytes, two words for each feature, four words and a count for each classifier, and for each
/// support vector as many words as features and one more.
pub proof fn law_just_whole_models_load(bytes: Seq<u8>)
    requires
        is_consistent(bytes),
        bytes.len() <= usize::MAX,
    ensures
        load_error(bytes) is None <==> {
            let f = number_at(bytes, 8, 4);
            let s = number_at(bytes, 12, 4);
            let v = number_at(bytes, 16, 8);
            &&& begins_well(bytes)
            &&& bytes.len() >= 24
            &&& bytes.len() == 24 + 16 * f + 36 * s + 8 * (v * f) + 8 * v
        },
{
    if bytes.len() >= 8 {
        lemma_version(bytes);
    }
    if bytes.len() >= 4 {
        lemma_magic(bytes);
    }
    let f = number_at(bytes, 8, 4);
    let v = number_at(bytes, 16, 8);
    assert(v * f >= 0) by (nonlinear_arith)
        requires
            v >= 0,
            f >= 0,
    ;
}

proof fn lemma_magic(bytes: Seq<u8>)
    requires
        bytes.len() >= 4,
    ensures
        bytes.take(4) == super::svc::magic() <==> bytes[0] == 0x53 && bytes[1] == 0x56 && bytes[2]
            == 0x43 && bytes[3] == 0x42,
{
    let start = bytes.take(4);
    assert(start[0] == bytes[0] && start[1] == bytes[1] && start[2] == bytes[2] && start[3]
        == bytes[3]);
    if bytes[0] == 0x53 && bytes[1] == 0x56 && bytes[2] == 0x43 && bytes[3] == 0x42 {
        assert(start =~= super::svc::magic());
    }
}

/// A file that does not begin with the letters of a model is refused for the letters that it begins
/// with, and one with the letters but another version for the version.
pub proof fn law_foreign_files_are_refused(bytes: Seq<u8>)
    ensures
        (load_error(bytes) matches Some(LoadError::BadMagic(_))) == (bytes.len() >= 4
            && !has_letters(bytes)),
        load_error(bytes) matches Some(LoadError::BadMagic(m)) ==> m[0] == bytes[0] && m[1]
            == bytes[1] && m[2] == bytes[2] && m[3] == bytes[3],
        (load_error(bytes) matches Some(LoadError::BadVersion(_))) == (bytes.len() >= 8
            && has_letters(bytes) && !begins_well(bytes)),
        load_error(bytes) matches Some(LoadError::BadVersion(version)) ==> spells(
            bytes,
            4,
            4,
            version as int,
        ),
{
    if bytes.len() >= 8 {
        lemma_version(bytes);
        law_number_spells_its_bytes(bytes, 4, 4);
    }
    if bytes.len() >= 4 {
        lemma_magic(bytes);
    }
}

/// Where a section of a model ends that is the first not to fit into a file of the length `len`: of a
/// header that says there are `f` features, `s` classifiers and `v` support vectors.
pub open spec fn ends_first_behind(len: int, f: int, s: int, v: int, end: int) -> bool {
    let counts = 24 + 16 * f + 32 * s;
    let vectors = counts + 4 * s;
    let coefficients = vectors + 8 * (v * f);
    ||| len < 24 + 8 * f && end == 24 + 8 * f
    ||| 24 + 8 * f <= len < 24 + 16 * f && end == 24 + 16 * f
    ||| 24 + 16 * f <= len < 24 + 16 * f + 8 * s && end == 24 + 16 * f + 8 * s
    ||| 24 + 16 * f + 8 * s <= len < 24 + 16 * f + 16 * s && end == 24 + 16 * f + 16 * s
    ||| 24 + 16 * f + 16 * s <= len < 24 + 16 * f + 24 * s && end == 24 + 16 * f + 24 * s
    ||| 24 + 16 * f + 24 * s <= len < counts && end == counts
    ||| counts <= len < vectors && len < end <= len + 4 && (end - counts) % 4 == 0
    ||| vectors <= len < coefficients && end == coefficients
    ||| coefficients <= len < coefficients + 8 * v && end == coefficients + 8 * v
}

/// A file that is too short is told its own length and where the section would have to end that it cuts
/// short.
pub proof fn law_short_file_names_the_section(bytes: Seq<u8>)
    requires
        is_consistent(bytes),
        bytes.len() <= usize::MAX,
    ensures
        load_error(bytes) matches Some(LoadError::TooShort { expected, got }) ==> {
            let f = number_at(bytes, 8, 4) as int;
            let s = number_at(bytes, 12, 4) as int;
            let v = number_at(bytes, 16, 8) as int;
            &&& got == bytes.len()
            &&& got < expected
            &&& bytes.len() < 24 ==> expected == if got < 4 {
                4int
            } else if got < 8 {
                8
            } else if got < 12 {
                12
            } else if got < 16 {
                16
            } else {
                24
            }
            &&& bytes.len() >= 24 ==> ends_first_behind(got as int, f, s, v, expected as int)
        },
{
    if bytes.len() >= 24 && counts_at(bytes) <= bytes.len() < super::svc::vectors_at(bytes) {
        let first = counts_at(bytes) as int;
        let whole = (bytes.len() - first) / 4;
        assert(first + 4 * (whole + 1) <= super::svc::vectors_at(bytes));
    }
    if bytes.len() >= 4 {
        lemma_magic(bytes);
    }
}

/// The cores that a portfolio takes up together.
pub open spec fn portfolio_cores(portfolio: Seq<(Seq<char>, usize)>) -> int
    decreases portfolio.len(),
{
    if portfolio.len() == 0 {
        0
    } else {
        portfolio_cores(portfolio.drop_last()) + portfolio.last().1
    }
}

/// Every portfolio takes up eight cores, and no solver of one is without a core.
pub proof fn law_portfolios_take_eight_cores()
    ensures
        portfolio_cores(k1_entries()) == 8,
        portfolio_cores(ek1_entries()) == 8,
        forall|i: int| 0 <= i < k1_entries().len() ==> (#[trigger] k1_entries()[i]).1 > 0,
        forall|i: int| 0 <= i < ek1_entries().len() ==> (#[trigger] ek1_entries()[i]).1 > 0,
{
    reveal_with_fuel(portfolio_cores, 8);
}

/// What is left of two texts that begin alike is alike.
proof fn lemma_same_start(start: Seq<char>, x: Seq<char>, y: Seq<char>)
    requires
        start + x == start + y,
    ensures
        x == y,
{
    assert(x =~= (start + x).skip(start.len() as int));
    assert(y =~= (start + y).skip(start.len() as int));
}

/// Numbers at the end of texts that begin alike are alike.
proof fn lemma_last_number(start: Seq<char>, a: nat, b: nat)
    requires
        start + decimal(a) == start + decimal(b),
    ensures
        a == b,
{
    let none = Seq::<char>::empty();
    lemma_same_start(start, decimal(a), decimal(b));
    assert(decimal(a) + none =~= decimal(b) + none);
    law_number_ends_at_a_letter(a, b, none, none);
}

/// Of a text that gives a number, more text behind it and what comes then, each can be read.
proof fn lemma_next_number(a: nat, b: nat, sep: Seq<char>, x: Seq<char>, y: Seq<char>)
    requires
        sep.len() > 0,
        !('0' <= sep[0] && sep[0] <= '9'),
        decimal(a) + (sep + x) == decimal(b) + (sep + y),
    ensures
        a == b,
        x == y,
{
    assert((sep + x)[0] == sep[0] && (sep + y)[0] == sep[0]);
    law_number_ends_at_a_letter(a, b, sep + x, sep + y);
    lemma_same_start(sep, x, y);
}

/// The words for a file that is too short tell how long it is and would have to be.
#[verifier::spinoff_prover]
pub proof fn law_words_tell_lengths_apart(e: usize, g: usize, f: usize, h: usize)
    requires
        load_message(LoadError::TooShort { expected: e, got: g }) == load_message(
            LoadError::TooShort { expected: f, got: h },
        ),
    ensures
        e == f,
        g == h,
{
    reveal_strlit(" bytes, got ");
    let start = "buffer too short: expected at least "@;
    let mid = " bytes, got "@;
    let x = decimal(e as nat) + (mid + decimal(g as nat));
    let y = decimal(f as nat) + (mid + decimal(h as nat));
    assert(load_message(LoadError::TooShort { expected: e, got: g }) =~= start + x);
    assert(load_message(LoadError::TooShort { expected: f, got: h }) =~= start + y);
    lemma_same_start(start, x, y);
    lemma_next_number(e as nat, f as nat, mid, decimal(g as nat), decimal(h as nat));
    lemma_last_number(Seq::empty(), g as nat, h as nat);
}

/// Texts put together from the left are those put together from the right.
proof fn lemma_regroup(a: Seq<char>, b: Seq<char>, c: Seq<char>)
    ensures
        a + b + c == a + (b + c),
{
    assert(a + b + c =~= a + (b + c));
}

/// Four numbers between a start and an end, taken from the left.
proof fn lemma_four_numbers(
    start: Seq<char>,
    sep: Seq<char>,
    end: Seq<char>,
    a: Seq<char>,
    b: Seq<char>,
    c: Seq<char>,
    d: Seq<char>,
)
    ensures
        start + a + sep + b + sep + c + sep + d + end == start + (a + (sep + (b + (sep + (c + (sep
            + (d + end))))))),
{
    let e = d + end;
    let f = c + (sep + e);
    let g = b + (sep + f);
    let one = start + a;
    let two = one + sep + b;
    let three = two + sep + c;
    lemma_regroup(three + sep, d, end);
    lemma_regroup(three, sep, e);
    lemma_regroup(two + sep, c, sep + e);
    lemma_regroup(two, sep, f);
    lemma_regroup(one + sep, b, sep + f);
    lemma_regroup(one, sep, g);
    lemma_regroup(start, a, sep + g);
}

/// The words for a file that begins otherwise than a model tell what it begins with.
#[verifier::spinoff_prover]
pub proof fn law_words_tell_letters_apart(m: [u8; 4], n: [u8; 4])
    requires
        load_message(LoadError::BadMagic(m)) == load_message(LoadError::BadMagic(n)),
    ensures
        m[0] == n[0] && m[1] == n[1] && m[2] == n[2] && m[3] == n[3],
{
    reveal_strlit(", ");
    reveal_strlit("]");
    let start = "bad magic: expected b\"SVCB\", got ["@;
    let sep = ", "@;
    let none = Seq::<char>::empty();
    let x4 = decimal(m[3] as nat) + ("]"@ + none);
    let y4 = decimal(n[3] as nat) + ("]"@ + none);
    let x3 = decimal(m[2] as nat) + (sep + x4);
    let y3 = decimal(n[2] as nat) + (sep + y4);
    let x2 = decimal(m[1] as nat) + (sep + x3);
    let y2 = decimal(n[1] as nat) + (sep + y3);
    let x1 = decimal(m[0] as nat) + (sep + x2);
    let y1 = decimal(n[0] as nat) + (sep + y2);
    assert("]"@ + none =~= "]"@);
    lemma_four_numbers(
        start,
        sep,
        "]"@,
        decimal(m[0] as nat),
        decimal(m[1] as nat),
        decimal(m[2] as nat),
        decimal(m[3] as nat),
    );
    lemma_four_numbers(
        start,
        sep,
        "]"@,
        decimal(n[0] as nat),
        decimal(n[1] as nat),
        decimal(n[2] as nat),
        decimal(n[3] as nat),
    );
    assert(load_message(LoadError::BadMagic(m)) == start + x1);
    assert(load_message(LoadError::BadMagic(n)) == start + y1);
    lemma_same_start(start, x1, y1);
    lemma_next_number(m[0] as nat, n[0] as nat, sep, x2, y2);
    lemma_next_number(m[1] as nat, n[1] as nat, sep, x3, y3);
    lemma_next_number(m[2] as nat, n[2] as nat, sep, x4, y4);
    lemma_next_number(m[3] as nat, n[3] as nat, "]"@, none, none);
}

/// The words for another version tell the version, and those for bytes that are left over how many.
pub proof fn law_words_tell_numbers_apart(v: u32, w: u32, n: usize, m: usize)
    ensures
        load_message(LoadError::BadVersion(v)) == load_message(LoadError::BadVersion(w)) ==> v == w,
        load_message(LoadError::TrailingBytes(n)) == load_message(LoadError::TrailingBytes(m)) ==> n
            == m,
{
    if load_message(LoadError::BadVersion(v)) == load_message(LoadError::BadVersion(w)) {
        lemma_last_number("unsupported version: "@, v as nat, w as nat);
    }
    if load_message(LoadError::TrailingBytes(n)) == load_message(LoadError::TrailingBytes(m)) {
        lemma_last_number("trailing bytes after parsing: "@, n as nat, m as nat);
    }
}

/// The words for an error tell which kind of error it is.
#[verifier::spinoff_prover]
pub proof fn law_words_tell_kinds_apart(a: LoadError, b: LoadError)
    requires
        load_message(a) == load_message(b),
    ensures
        a is TooShort == b is TooShort,
        a is BadMagic == b is BadMagic,
        a is BadVersion == b is BadVersion,
{
    lemma_first_letters(a);
    lemma_first_letters(b);
}

proof fn lemma_first_letters(e: LoadError)
    ensures
        e is TooShort ==> load_message(e)[0] == 'b' && load_message(e)[1] == 'u',
        e is BadMagic ==> load_message(e)[0] == 'b' && load_message(e)[1] == 'a',
        e is BadVersion ==> load_message(e)[0] == 'u',
        e is TrailingBytes ==> load_message(e)[0] == 't',
{
    reveal_strlit("buffer too short: expected at least ");
    reveal_strlit("bad magic: expected b\"SVCB\", got [");
    reveal_strlit("unsupported version: ");
    reveal_strlit("trailing bytes after parsing: ");
}

/// A portfolio is seen whole: the name and the cores of each solver, in order.
pub proof fn law_portfolio_is_seen_whole(portfolio: Seq<SolverInfo>, i: int)
    requires
        0 <= i < portfolio.len(),
    ensures
        entries(portfolio).len() == portfolio.len(),
        entries(portfolio)[i].0 == portfolio[i].name@,
        entries(portfolio)[i].1 == portfolio[i].cores,
{
}

} // verus!
