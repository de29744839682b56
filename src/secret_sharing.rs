//! Threshold secret sharing over the P-256 scalar field.
//!
//! A secret of at most 32 bytes is left-padded to one 32-byte big-endian
//! field element and split with `vsss_rs_std`'s Shamir scheme. A share is
//! encoded as 33 bytes: a one-byte identifier, then the 32-byte value.
use p256::elliptic_curve::ff::PrimeField;
use p256::{FieldBytes, Scalar};
use rand_core::OsRng;
use vsss_rs_std::Share;
use vstd::prelude::*;

verus! {

/// Width of one encoded field element.
pub const SCALAR_SIZE: usize = 32;

/// Width of one encoded share: identifier byte plus value.
pub const SHARE_SIZE: usize = 33;

/// Why a split, a combine or an aggregate was refused.
#[derive(Clone, Copy, Debug, PartialEq, Eq, Structural)]
pub enum ShareError {
    SecretTooLarge,
    InvalidThreshold,
    InsufficientShares,
    MalformedShare,
    InvalidEncoding,
    ReconstructionFailure,
}

/// The description of each share error.
pub open spec fn share_error_text(e: ShareError) -> Seq<char> {
    match e {
        ShareError::SecretTooLarge => "secret too long; max 32 bytes"@,
        ShareError::InvalidThreshold => "invalid threshold"@,
        ShareError::InsufficientShares => "need at least 2 shares"@,
        ShareError::MalformedShare => "invalid share: expected 33 bytes"@,
        ShareError::InvalidEncoding => "invalid scalar representation"@,
        ShareError::ReconstructionFailure => "shares could not be combined"@,
    }
}

impl ShareError {
    /// A short description of the error.
    pub fn message(&self) -> (r: String)
        ensures
            r@ == share_error_text(*self),
    {
        match self {
            ShareError::SecretTooLarge => String::from_str("secret too long; max 32 bytes"),
            ShareError::InvalidThreshold => String::from_str("invalid threshold"),
            ShareError::InsufficientShares => String::from_str("need at least 2 shares"),
            ShareError::MalformedShare => String::from_str("invalid share: expected 33 bytes"),
            ShareError::InvalidEncoding => String::from_str("invalid scalar representation"),
            ShareError::ReconstructionFailure => String::from_str("shares could not be combined"),
        }
    }
}

/// The value of a big-endian byte string.
pub open spec fn be_value(b: Seq<u8>) -> nat
    decreases b.len(),
{
    if b.len() == 0 {
        0
    } else {
        (be_value(b.drop_last()) * 256 + b.last()) as nat
    }
}

/// The order of the P-256 group, the modulus of its scalar field.
pub open spec fn p256_order() -> nat {
    (((0xffffffff00000000nat * 0x1_0000_0000_0000_0000nat + 0xffffffffffffffffnat)
        * 0x1_0000_0000_0000_0000nat + 0xbce6faada7179e84nat) * 0x1_0000_0000_0000_0000nat
        + 0xf3b9cac2fc632551nat)
}

/// Whether `b` is the canonical 32-byte encoding of a scalar.
pub open spec fn is_canonical(b: Seq<u8>) -> bool {
    b.len() == SCALAR_SIZE && be_value(b) < p256_order()
}

/// `s` left-padded with zero bytes to 32 bytes.
pub open spec fn pad32(s: Seq<u8>) -> Seq<u8> {
    Seq::new((SCALAR_SIZE - s.len()) as nat, |i: int| 0u8) + s
}

/// `s` without its leading zero bytes, keeping at least one byte.
pub open spec fn strip_zeros(s: Seq<u8>) -> Seq<u8>
    decreases s.len(),
{
    if s.len() > 1 && s[0] == 0 {
        strip_zeros(s.drop_first())
    } else {
        s
    }
}

pub open spec fn byte_views(v: Seq<Vec<u8>>) -> Seq<Seq<u8>> {
    v.map_values(|b: Vec<u8>| b@)
}

pub open spec fn share_value(s: Seq<u8>) -> Seq<u8> {
    s.subrange(1, SHARE_SIZE as int)
}

pub open spec fn all_zero(s: Seq<u8>) -> bool {
    forall|i: int| 0 <= i < s.len() ==> s[i] == 0
}

/// The bitwise OR of all bytes of `s`.
pub open spec fn or_bytes(s: Seq<u8>) -> u8
    decreases s.len(),
{
    if s.len() == 0 {
        0
    } else {
        or_bytes(s.drop_last()) | s.last()
    }
}

/// Every blob is 33 bytes long.
pub open spec fn all_sized(shares: Seq<Seq<u8>>) -> bool {
    forall|i: int| 0 <= i < shares.len() ==> (#[trigger] shares[i]).len() == SHARE_SIZE
}

/// Every share value is the canonical encoding of a scalar.
pub open spec fn all_encoded(shares: Seq<Seq<u8>>) -> bool {
    forall|i: int| 0 <= i < shares.len() ==> is_canonical(share_value(#[trigger] shares[i]))
}

/// No share has the identifier 0, which stands for the secret itself.
pub open spec fn ids_nonzero(shares: Seq<Seq<u8>>) -> bool {
    forall|i: int| 0 <= i < shares.len() ==> (#[trigger] shares[i])[0] != 0
}

/// Whether the zero test of `vsss_rs_std` can inspect a share value: it
/// negates the OR of the value's bytes read as `i8`, which overflows when
/// that OR is exactly 0x80.
pub open spec fn zero_test_defined(v: Seq<u8>) -> bool {
    or_bytes(v) != 0x80
}

/// Identifiers pairwise distinct, no value zero, and every value one the
/// zero test can inspect: what interpolation needs beyond well-formed shares.
pub open spec fn interpolation_accepts(shares: Seq<Seq<u8>>) -> bool {
    &&& forall|i: int, j: int|
        0 <= i < shares.len() && 0 <= j < shares.len() && i != j ==> #[trigger] shares[i][0]
            != #[trigger] shares[j][0]
    &&& forall|i: int| 0 <= i < shares.len() ==> !all_zero(share_value(#[trigger] shares[i]))
    &&& forall|i: int| 0 <= i < shares.len() ==> zero_test_defined(share_value(#[trigger] shares[i]))
}

/// The scalar, encoded in 32 bytes, that Lagrange interpolation at zero
/// gives for these shares.
pub uninterp spec fn shamir_combined(shares: Seq<Seq<u8>>) -> Seq<u8>;

/// What `combine_secret_shares` returns for these share blobs. The checks
/// run over all blobs in turn: their number, then every length, then every
/// value's encoding, then every identifier, then what interpolation needs.
pub open spec fn combine_outcome(shares: Seq<Seq<u8>>) -> Result<Seq<u8>, ShareError> {
    if shares.len() < 2 {
        Err(ShareError::InsufficientShares)
    } else if !all_sized(shares) {
        Err(ShareError::MalformedShare)
    } else if !all_encoded(shares) {
        Err(ShareError::InvalidEncoding)
    } else if !ids_nonzero(shares) {
        Err(ShareError::MalformedShare)
    } else if !interpolation_accepts(shares) {
        Err(ShareError::ReconstructionFailure)
    } else {
        Ok(strip_zeros(shamir_combined(shares)))
    }
}

pub open spec fn bytes_result(r: Result<Vec<u8>, ShareError>) -> Result<Seq<u8>, ShareError> {
    match r {
        Ok(v) => Ok(v@),
        Err(e) => Err(e),
    }
}

/// Distinct indices below `n`.
pub open spec fn picks_valid(picks: Seq<int>, n: nat) -> bool {
    &&& forall|j: int| 0 <= j < picks.len() ==> 0 <= #[trigger] picks[j] < n
    &&& forall|a: int, b: int|
        0 <= a < picks.len() && 0 <= b < picks.len() && a != b ==> #[trigger] picks[a]
            != #[trigger] picks[b]
}

/// The shares at the given indices, in that order.
pub open spec fn pick(shares: Seq<Seq<u8>>, picks: Seq<int>) -> Seq<Seq<u8>> {
    picks.map_values(|p: int| shares[p])
}

/// The value at `x` of the polynomial with coefficients `c`, constant term
/// first.
pub open spec fn poly_eval(c: Seq<int>, x: int) -> int
    decreases c.len(),
{
    if c.len() == 0 {
        0
    } else {
        c[0] + x * poly_eval(c.drop_first(), x)
    }
}

/// `c` holds `k` scalars, the first being `secret`, and every share value
/// is that polynomial taken modulo the group order at the share's identifier.
pub open spec fn shares_on_polynomial(c: Seq<int>, secret: Seq<u8>, k: nat, shares: Seq<Seq<u8>>) -> bool {
    &&& c.len() == k
    &&& c[0] == be_value(secret)
    &&& forall|j: int| 0 <= j < c.len() ==> 0 <= #[trigger] c[j] < p256_order()
    &&& forall|i: int|
        0 <= i < shares.len() ==> be_value(share_value(#[trigger] shares[i])) == poly_eval(
            c,
            shares[i][0] as int,
        ) % (p256_order() as int)
}

/// What holds of every outcome of a split of `secret` (already padded to
/// 32 bytes): `n` well-formed shares with identifiers 1 to `n`, the values of
/// one polynomial of degree below `k` with the secret at zero, of which any
/// `k` or more distinct ones interpolate to the secret.
pub open spec fn split_shares_valid(secret: Seq<u8>, k: nat, n: nat, shares: Seq<Seq<u8>>) -> bool {
    &&& shares.len() == n
    &&& forall|i: int|
        #![trigger shares[i]]
        0 <= i < n ==> shares[i].len() == SHARE_SIZE && shares[i][0] as int == i + 1
            && is_canonical(share_value(shares[i]))
    &&& exists|c: Seq<int>| #[trigger] shares_on_polynomial(c, secret, k, shares)
    &&& forall|picks: Seq<int>|
        picks_valid(picks, n) && picks.len() >= k ==> #[trigger] shamir_combined(
            pick(shares, picks),
        ) == secret
}

/// Why `split_secret` refuses a secret and parameters, if it does: its
/// length, then a threshold of zero or above the share count, then a padded
/// secret that is no scalar, then what the scheme supports (a threshold of
/// at least 2, at most 255 shares).
pub open spec fn split_fault(secret: Seq<u8>, k: nat, n: nat) -> Option<ShareError> {
    if secret.len() > SCALAR_SIZE {
        Some(ShareError::SecretTooLarge)
    } else if k < 1 || k > n {
        Some(ShareError::InvalidThreshold)
    } else if !is_canonical(pad32(secret)) {
        Some(ShareError::InvalidEncoding)
    } else if k < 2 || n > 255 {
        Some(ShareError::InvalidThreshold)
    } else {
        None
    }
}

#[verifier::external_type_specification]
#[verifier::external_body]
pub struct ExVsssError(vsss_rs_std::Error);

/// Relies on p256's `Scalar::from_repr`: it accepts a 32-byte big-endian
/// integer exactly when it is below the group order.
#[verifier::external_body]
fn scalar_from_repr_is_some(bytes: &[u8]) -> (r: bool)
    requires
        bytes@.len() == SCALAR_SIZE,
    ensures
        r == is_canonical(bytes@),
{
    bool::from(Scalar::from_repr(FieldBytes::clone_from_slice(bytes)).is_some())
}

/// Relies on `vsss_rs_std::shamir::split_secret` over `p256::Scalar`: it
/// refuses a threshold below 2, a limit below the threshold or above 255, and
/// otherwise evaluates a random polynomial of degree `threshold - 1` whose
/// constant term is the secret at 1 to `limit`, each share being the
/// identifier followed by the value's 32-byte encoding.
#[verifier::external_body]
fn shamir_split(threshold: usize, limit: usize, secret: &[u8]) -> (r: Result<
    Vec<Vec<u8>>,
    vsss_rs_std::Error,
>)
    requires
        is_canonical(secret@),
    ensures
        r is Ok <==> 2 <= threshold <= limit <= 255,
        r matches Ok(v) ==> split_shares_valid(
            secret@,
            threshold as nat,
            limit as nat,
            byte_views(v@),
        ),
{
    let scalar = Option::<Scalar>::from(Scalar::from_repr(FieldBytes::clone_from_slice(secret)));
    vsss_rs_std::shamir::split_secret(threshold, limit, scalar.unwrap(), &mut OsRng).map(
        |shares| shares.into_iter().map(Vec::from).collect(),
    )
}

/// Relies on `vsss_rs_std::shamir::combine_shares` over `p256::Scalar`: it
/// refuses fewer than two shares, an identifier 0, a repeated identifier, a
/// zero value or a value that is no scalar, and otherwise interpolates at zero
/// and returns the scalar's 32-byte encoding. Its zero test overflows on a
/// value whose bytes OR to 0x80, which is therefore excluded.
#[verifier::external_body]
fn shamir_combine(shares: &[Vec<u8>]) -> (r: Result<Vec<u8>, vsss_rs_std::Error>)
    requires
        forall|i: int| 0 <= i < shares@.len() ==> #[trigger] shares@[i]@.len() == SHARE_SIZE,
        forall|i: int|
            0 <= i < shares@.len() ==> zero_test_defined(share_value(#[trigger] shares@[i]@)),
    ensures
        r is Ok <==> ({
            let s = byte_views(shares@);
            &&& s.len() >= 2
            &&& forall|i: int|
                0 <= i < s.len() ==> #[trigger] s[i][0] != 0 && is_canonical(share_value(s[i]))
            &&& interpolation_accepts(s)
        }),
        r matches Ok(v) ==> v@ == shamir_combined(byte_views(shares@)) && v@.len()
            == SCALAR_SIZE,
{
    let parts: Vec<Share> = shares.iter().map(|b| Share(b.clone())).collect();
    vsss_rs_std::shamir::combine_shares::<Scalar>(&parts).map(|s| s.to_repr().to_vec())
}

/// `secret` left-padded with zero bytes to one 32-byte field element.
fn pad_secret(secret: &[u8]) -> (r: Vec<u8>)
    requires
        secret@.len() <= SCALAR_SIZE,
    ensures
        r@ == pad32(secret@),
{
    let mut r: Vec<u8> = Vec::new();
    let zeros: usize = SCALAR_SIZE - secret.len();
    let mut i: usize = 0;
    while i < zeros
        invariant
            i <= zeros,
            zeros == SCALAR_SIZE - secret@.len(),
            r@ == Seq::new(i as nat, |j: int| 0u8),
        decreases zeros - i,
    {
        r.push(0);
        i = i + 1;
        assert(r@ =~= Seq::new(i as nat, |j: int| 0u8));
    }
    let mut j: usize = 0;
    while j < secret.len()
        invariant
            j <= secret@.len(),
            zeros == SCALAR_SIZE - secret@.len(),
            r@ == Seq::new(zeros as nat, |k: int| 0u8) + secret@.subrange(0, j as int),
        decreases secret@.len() - j,
    {
        r.push(secret[j]);
        j = j + 1;
        assert(r@ =~= Seq::new(zeros as nat, |k: int| 0u8) + secret@.subrange(0, j as int));
    }
    assert(secret@.subrange(0, secret@.len() as int) =~= secret@);
    r
}

/// The 32-byte value of a 33-byte share.
fn value_of(share: &Vec<u8>) -> (r: Vec<u8>)
    requires
        share@.len() == SHARE_SIZE,
    ensures
        r@ == share_value(share@),
{
    let mut r: Vec<u8> = Vec::new();
    let mut i: usize = 1;
    while i < SHARE_SIZE
        invariant
            1 <= i <= SHARE_SIZE,
            share@.len() == SHARE_SIZE,
            r@ == share@.subrange(1, i as int),
        decreases SHARE_SIZE - i,
    {
        r.push(share[i]);
        i = i + 1;
        assert(r@ =~= share@.subrange(1, i as int));
    }
    r
}

/// The bitwise OR of the value bytes of a 33-byte share.
fn value_or(share: &Vec<u8>) -> (r: u8)
    requires
        share@.len() == SHARE_SIZE,
    ensures
        r == or_bytes(share_value(share@)),
{
    let ghost v = share_value(share@);
    let mut acc: u8 = 0;
    let mut i: usize = 1;
    assert(v.take(0) =~= Seq::<u8>::empty());
    while i < SHARE_SIZE
        invariant
            1 <= i <= SHARE_SIZE,
            share@.len() == SHARE_SIZE,
            v == share_value(share@),
            acc == or_bytes(v.take(i - 1)),
        decreases SHARE_SIZE - i,
    {
        assert(v.take(i as int).drop_last() =~= v.take(i - 1));
        acc = acc | share[i];
        i = i + 1;
    }
    assert(v.take(32) =~= v);
    acc
}

/// Drops leading zero bytes, keeping at least one byte.
pub fn strip_leading_zeros(v: &Vec<u8>) -> (r: Vec<u8>)
    ensures
        r@ == strip_zeros(v@),
{
    let mut start: usize = 0;
    assert(v@.subrange(0, v@.len() as int) =~= v@);
    while v.len() > 0 && start < v.len() - 1 && v[start] == 0
        invariant
            start <= v@.len(),
            v@.len() > 0 ==> start < v@.len(),
            strip_zeros(v@.subrange(start as int, v@.len() as int)) == strip_zeros(v@),
        decreases v@.len() - start,
    {
        assert(v@.subrange(start as int, v@.len() as int).drop_first() =~= v@.subrange(
            start + 1,
            v@.len() as int,
        ));
        start = start + 1;
    }
    let mut r: Vec<u8> = Vec::new();
    let mut i: usize = start;
    while i < v.len()
        invariant
            start <= i <= v@.len(),
            r@ == v@.subrange(start as int, i as int),
        decreases v@.len() - i,
    {
        r.push(v[i]);
        i = i + 1;
        assert(r@ =~= v@.subrange(start as int, i as int));
    }
    assert(v@.subrange(0, v@.len() as int) =~= v@);
    r
}

/// Splits `secret` into `n` shares of which any `k` reconstruct it.
///
/// Refused, in this order: a secret over 32 bytes; a threshold of zero or
/// above `n`; a padded secret that is no scalar; a threshold of 1 or more
/// than 255 shares, which the scheme does not support.
pub fn split_secret(secret: &[u8], n: usize, k: usize) -> (r: Result<Vec<Vec<u8>>, ShareError>)
    ensures
        match split_fault(secret@, k as nat, n as nat) {
            Some(e) => r == Err::<Vec<Vec<u8>>, ShareError>(e),
            None => r matches Ok(v) && split_shares_valid(
                pad32(secret@),
                k as nat,
                n as nat,
                byte_views(v@),
            ),
        },
{
    if secret.len() > SCALAR_SIZE {
        return Err(ShareError::SecretTooLarge);
    }
    if k < 1 || k > n {
        return Err(ShareError::InvalidThreshold);
    }
    let padded = pad_secret(secret);
    if !scalar_from_repr_is_some(padded.as_slice()) {
        return Err(ShareError::InvalidEncoding);
    }
    if k < 2 || n > 255 {
        return Err(ShareError::InvalidThreshold);
    }
    match shamir_split(k, n, padded.as_slice()) {
        Ok(shares) => Ok(shares),
        Err(_) => Err(ShareError::InvalidThreshold),
    }
}

/// Reconstructs a secret from encoded shares, dropping the zero bytes that
/// padding put in front of it (at least one byte is kept).
pub fn combine_secret_shares(shares: &[Vec<u8>]) -> (r: Result<Vec<u8>, ShareError>)
    ensures
        bytes_result(r) == combine_outcome(byte_views(shares@)),
{
    let ghost views = byte_views(shares@);
    if shares.len() < 2 {
        return Err(ShareError::InsufficientShares);
    }
    let mut i: usize = 0;
    while i < shares.len()
        invariant
            i <= shares@.len(),
            views == byte_views(shares@),
            views.len() == shares@.len(),
            shares@.len() >= 2,
            forall|j: int| 0 <= j < i ==> (#[trigger] views[j]).len() == SHARE_SIZE,
        decreases shares@.len() - i,
    {
        assert(views[i as int] == shares@[i as int]@);
        if shares[i].len() != SHARE_SIZE {
            assert(!all_sized(views));
            return Err(ShareError::MalformedShare);
        }
        i = i + 1;
    }
    assert forall|j: int| 0 <= j < shares@.len() implies #[trigger] shares@[j]@.len()
        == SHARE_SIZE by {
        assert(views[j] == shares@[j]@);
    }
    let mut i: usize = 0;
    while i < shares.len()
        invariant
            i <= shares@.len(),
            views == byte_views(shares@),
            views.len() == shares@.len(),
            shares@.len() >= 2,
            all_sized(views),
            forall|j: int| 0 <= j < shares@.len() ==> #[trigger] shares@[j]@.len() == SHARE_SIZE,
            forall|j: int| 0 <= j < i ==> is_canonical(share_value(#[trigger] views[j])),
        decreases shares@.len() - i,
    {
        assert(views[i as int] == shares@[i as int]@);
        let value = value_of(&shares[i]);
        if !scalar_from_repr_is_some(value.as_slice()) {
            assert(!all_encoded(views));
            return Err(ShareError::InvalidEncoding);
        }
        i = i + 1;
    }
    let mut i: usize = 0;
    while i < shares.len()
        invariant
            i <= shares@.len(),
            views == byte_views(shares@),
            views.len() == shares@.len(),
            shares@.len() >= 2,
            all_sized(views),
            all_encoded(views),
            forall|j: int| 0 <= j < shares@.len() ==> #[trigger] shares@[j]@.len() == SHARE_SIZE,
            forall|j: int| 0 <= j < i ==> (#[trigger] views[j])[0] != 0,
        decreases shares@.len() - i,
    {
        assert(views[i as int] == shares@[i as int]@);
        if shares[i][0] == 0 {
            assert(!ids_nonzero(views));
            return Err(ShareError::MalformedShare);
        }
        i = i + 1;
    }
    let mut m: usize = 0;
    while m < shares.len()
        invariant
            m <= shares@.len(),
            views == byte_views(shares@),
            views.len() == shares@.len(),
            shares@.len() >= 2,
            all_sized(views),
            all_encoded(views),
            ids_nonzero(views),
            forall|j: int| 0 <= j < shares@.len() ==> #[trigger] shares@[j]@.len() == SHARE_SIZE,
            forall|j: int| 0 <= j < m ==> zero_test_defined(share_value(#[trigger] shares@[j]@)),
        decreases shares@.len() - m,
    {
        if value_or(&shares[m]) == 0x80 {
            assert(views[m as int] == shares@[m as int]@);
            assert(!zero_test_defined(share_value(views[m as int])));
            return Err(ShareError::ReconstructionFailure);
        }
        m = m + 1;
    }
    match shamir_combine(shares) {
        Ok(secret) => Ok(strip_leading_zeros(&secret)),
        Err(_) => Err(ShareError::ReconstructionFailure),
    }
}

proof fn lemma_strip_padding(s: Seq<u8>, z: nat)
    requires
        s.len() >= 1,
        s[0] != 0,
    ensures
        strip_zeros(Seq::new(z, |i: int| 0u8) + s) == s,
    decreases z,
{
    let t = Seq::new(z, |i: int| 0u8) + s;
    if z == 0 {
        assert(t =~= s);
    } else {
        assert(t.drop_first() =~= Seq::new((z - 1) as nat, |i: int| 0u8) + s);
        lemma_strip_padding(s, (z - 1) as nat);
    }
}

/// Any `k` or more distinct shares out of a successful split recombine to
/// the secret, provided the secret does not begin with a zero byte (padding
/// cannot be told from such bytes) and none of the chosen shares has a value
/// that interpolation refuses (zero, or bytes that OR to 0x80).
pub proof fn lemma_split_then_combine(
    secret: Seq<u8>,
    k: nat,
    n: nat,
    shares: Seq<Seq<u8>>,
    picks: Seq<int>,
)
    requires
        split_fault(secret, k, n) is None,
        split_shares_valid(pad32(secret), k, n, shares),
        picks_valid(picks, n),
        picks.len() >= k,
        secret.len() >= 1,
        secret[0] != 0,
        forall|j: int| 0 <= j < picks.len() ==> !all_zero(share_value(shares[#[trigger] picks[j]])),
        forall|j: int|
            0 <= j < picks.len() ==> zero_test_defined(share_value(shares[#[trigger] picks[j]])),
    ensures
        combine_outcome(pick(shares, picks)) == Ok::<Seq<u8>, ShareError>(secret),
{
    let chosen = pick(shares, picks);
    assert forall|j: int| 0 <= j < chosen.len() implies (#[trigger] chosen[j]).len() == SHARE_SIZE
        && is_canonical(share_value(chosen[j])) && chosen[j][0] != 0 by {
        let p = picks[j];
        assert(chosen[j] == shares[p]);
    }
    assert forall|a: int, b: int|
        0 <= a < chosen.len() && 0 <= b < chosen.len() && a != b implies #[trigger] chosen[a][0]
        != #[trigger] chosen[b][0] by {
        let pa = picks[a];
        let pb = picks[b];
        assert(chosen[a] == shares[pa]);
        assert(chosen[b] == shares[pb]);
    }
    assert forall|j: int| 0 <= j < chosen.len() implies !all_zero(
        share_value(#[trigger] chosen[j]),
    ) && zero_test_defined(share_value(chosen[j])) by {
        let p = picks[j];
        assert(chosen[j] == shares[p]);
    }
    assert(shamir_combined(chosen) == pad32(secret));
    lemma_strip_padding(secret, (SCALAR_SIZE - secret.len()) as nat);
}

/// A threshold of zero or above the share count is refused with
/// `InvalidThreshold` for every secret that fits in one scalar, so no share
/// is produced.
pub proof fn lemma_bad_threshold_refused(secret: Seq<u8>, k: nat, n: nat)
    requires
        secret.len() <= SCALAR_SIZE,
        k > n || k == 0,
    ensures
        split_fault(secret, k, n) == Some(ShareError::InvalidThreshold),
{
}

/// Fewer than two share blobs are refused with `InsufficientShares`.
pub proof fn lemma_too_few_shares_refused(shares: Seq<Seq<u8>>)
    requires
        shares.len() < 2,
    ensures
        combine_outcome(shares) == Err::<Seq<u8>, ShareError>(ShareError::InsufficientShares),
{
}

/// Among two or more blobs, one that is not 33 bytes long makes the
/// combine fail with `MalformedShare`, wherever it stands.
pub proof fn lemma_wrong_length_refused(shares: Seq<Seq<u8>>, i: int)
    requires
        shares.len() >= 2,
        0 <= i < shares.len(),
        shares[i].len() != SHARE_SIZE,
    ensures
        combine_outcome(shares) == Err::<Seq<u8>, ShareError>(ShareError::MalformedShare),
{
    assert(!all_sized(shares));
}

} // verus!
