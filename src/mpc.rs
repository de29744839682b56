//! Share commands over hexadecimal text, and the multi-party aggregate: each
//! party's shares are combined on their own and the secrets are XOR-ed.
use crate::encoding::{
    from_hex, hex_bytes, hex_text, is_hex_text, to_hex, utf8_to_string,
};
use crate::secret_sharing::{
    all_zero, lemma_split_then_combine, pick, picks_valid, share_value, zero_test_defined,
    bytes_result, byte_views, combine_outcome, combine_secret_shares, pad32, split_fault,
    split_secret, split_shares_valid, ShareError,
};
use vstd::prelude::*;
use vstd::utf8::{decode_utf8, valid_utf8};
use vstd::string::StringSliceAdditionalSpecFns;

verus! {

/// `acc` with `s` XOR-ed in position by position; the shorter one counts as
/// padded with zero bytes on the right.
pub open spec fn xor_merge(acc: Seq<u8>, s: Seq<u8>) -> Seq<u8> {
    Seq::new(
        if acc.len() >= s.len() {
            acc.len()
        } else {
            s.len()
        },
        |i: int|
            if i < acc.len() && i < s.len() {
                acc[i] ^ s[i]
            } else if i < acc.len() {
                acc[i]
            } else {
                s[i]
            },
    )
}

/// The XOR of all secrets, from the first to the last.
pub open spec fn xor_fold(secrets: Seq<Seq<u8>>) -> Seq<u8>
    decreases secrets.len(),
{
    if secrets.len() == 0 {
        Seq::empty()
    } else if secrets.len() == 1 {
        secrets[0]
    } else {
        xor_merge(xor_fold(secrets.drop_last()), secrets.last())
    }
}

/// Each party's combined secret, or the first party's error.
pub open spec fn combine_each(parties: Seq<Seq<Seq<u8>>>) -> Result<Seq<Seq<u8>>, ShareError>
    decreases parties.len(),
{
    if parties.len() == 0 {
        Ok(Seq::empty())
    } else {
        match combine_each(parties.drop_last()) {
            Err(e) => Err(e),
            Ok(v) => match combine_outcome(parties.last()) {
                Err(e) => Err(e),
                Ok(x) => Ok(v.push(x)),
            },
        }
    }
}

/// What `aggregate_secrets` returns for these parties' shares.
pub open spec fn aggregate_outcome(parties: Seq<Seq<Seq<u8>>>) -> Result<Seq<u8>, ShareError> {
    if parties.len() == 0 {
        Err(ShareError::InsufficientShares)
    } else {
        match combine_each(parties) {
            Err(e) => Err(e),
            Ok(v) => Ok(xor_fold(v)),
        }
    }
}

pub open spec fn party_views(p: Seq<Vec<Vec<u8>>>) -> Seq<Seq<Seq<u8>>> {
    p.map_values(|v: Vec<Vec<u8>>| byte_views(v@))
}

pub open spec fn text_views(v: Seq<String>) -> Seq<Seq<char>> {
    v.map_values(|s: String| s@)
}

pub open spec fn str_views(v: Seq<&str>) -> Seq<Seq<char>> {
    v.map_values(|s: &str| s@)
}

/// What `combine_command` returns for these hexadecimal share texts.
pub open spec fn combine_command_outcome(texts: Seq<Seq<char>>) -> Result<Seq<char>, ShareError> {
    if exists|i: int| 0 <= i < texts.len() && !is_hex_text(#[trigger] texts[i]) {
        Err(ShareError::MalformedShare)
    } else {
        match combine_outcome(texts.map_values(|t: Seq<char>| hex_bytes(t))) {
            Err(e) => Err(e),
            Ok(b) => if valid_utf8(b) {
                Ok(decode_utf8(b))
            } else {
                Err(ShareError::InvalidEncoding)
            },
        }
    }
}

/// Splits the UTF-8 bytes of `secret` into `total` shares with threshold
/// `threshold`, each written as hexadecimal text.
pub fn split_command(secret: &str, threshold: usize, total: usize) -> (r: Result<
    Vec<String>,
    ShareError,
>)
    ensures
        match split_fault(secret.spec_bytes(), threshold as nat, total as nat) {
            Some(e) => r == Err::<Vec<String>, ShareError>(e),
            None => r matches Ok(v) && exists|shares: Seq<Seq<u8>>|
                split_shares_valid(
                    pad32(secret.spec_bytes()),
                    threshold as nat,
                    total as nat,
                    shares,
                ) && text_views(v@) == shares.map_values(|b: Seq<u8>| hex_text(b)),
        },
{
    let shares = split_secret(secret.as_bytes(), total, threshold)?;
    let mut out: Vec<String> = Vec::new();
    let mut i: usize = 0;
    while i < shares.len()
        invariant
            i <= shares@.len(),
            out@.len() == i,
            forall|k: int| 0 <= k < i ==> (#[trigger] out@[k])@ == hex_text(shares@[k]@),
        decreases shares@.len() - i,
    {
        let h = to_hex(shares[i].as_slice());
        out.push(h);
        i = i + 1;
    }
    assert(text_views(out@) =~= byte_views(shares@).map_values(|b: Seq<u8>| hex_text(b)));
    Ok(out)
}

/// Decodes hexadecimal share texts, combines them, and reads the secret as
/// UTF-8 text. A text that is no hexadecimal gives `MalformedShare`; a
/// secret that is no UTF-8 gives `InvalidEncoding`.
pub fn combine_command(hex_shares: Vec<&str>) -> (r: Result<String, ShareError>)
    ensures
        match r {
            Ok(s) => combine_command_outcome(str_views(hex_shares@)) == Ok::<
                Seq<char>,
                ShareError,
            >(s@),
            Err(e) => combine_command_outcome(str_views(hex_shares@)) == Err::<
                Seq<char>,
                ShareError,
            >(e),
        },
{
    let ghost texts = str_views(hex_shares@);
    let mut shares: Vec<Vec<u8>> = Vec::new();
    let mut i: usize = 0;
    while i < hex_shares.len()
        invariant
            i <= hex_shares@.len(),
            texts == str_views(hex_shares@),
            forall|j: int| 0 <= j < i ==> is_hex_text(#[trigger] texts[j]),
            shares@.len() == i,
            forall|k: int| 0 <= k < i ==> (#[trigger] shares@[k])@ == hex_bytes(texts[k]),
        decreases hex_shares@.len() - i,
    {
        assert(texts[i as int] == hex_shares[i as int]@);
        match from_hex(hex_shares[i]) {
            Ok(b) => {
                shares.push(b);
            },
            Err(_) => {
                return Err(ShareError::MalformedShare);
            },
        }
        i = i + 1;
    }
    assert(byte_views(shares@) =~= texts.map_values(|t: Seq<char>| hex_bytes(t)));
    let secret = combine_secret_shares(shares.as_slice())?;
    match utf8_to_string(secret) {
        Ok(s) => Ok(s),
        Err(_) => Err(ShareError::InvalidEncoding),
    }
}

/// XOR-s `s` into `acc`, growing `acc` where `s` is longer.
fn xor_into(acc: &mut Vec<u8>, s: &Vec<u8>)
    ensures
        final(acc)@ == xor_merge(old(acc)@, s@),
{
    let ghost start = acc@;
    let mut idx: usize = 0;
    while idx < s.len()
        invariant
            idx <= s@.len(),
            acc@ == xor_merge(start, s@.take(idx as int)),
        decreases s@.len() - idx,
    {
        if idx < acc.len() {
            let b = acc[idx] ^ s[idx];
            acc.set(idx, b);
        } else {
            acc.push(s[idx]);
        }
        idx = idx + 1;
        assert(acc@ =~= xor_merge(start, s@.take(idx as int)));
    }
    assert(s@.take(idx as int) =~= s@);
}

proof fn lemma_combine_each_prefix(parties: Seq<Seq<Seq<u8>>>, i: int)
    requires
        0 <= i <= parties.len(),
        combine_each(parties.take(i)) is Err,
    ensures
        combine_each(parties) == combine_each(parties.take(i)),
    decreases parties.len(),
{
    if i == parties.len() {
        assert(parties.take(i) =~= parties);
    } else {
        assert(parties.drop_last().take(i) =~= parties.take(i));
        lemma_combine_each_prefix(parties.drop_last(), i);
    }
}

/// Combines each party's shares on its own, then XOR-s the secrets byte by
/// byte, a shorter secret counting as padded with zero bytes on the right.
pub fn aggregate_secrets(shares: Vec<Vec<Vec<u8>>>) -> (r: Result<Vec<u8>, ShareError>)
    ensures
        bytes_result(r) == aggregate_outcome(party_views(shares@)),
{
    let ghost parties = party_views(shares@);
    if shares.len() == 0 {
        return Err(ShareError::InsufficientShares);
    }
    let mut aggregated: Vec<Vec<u8>> = Vec::new();
    let mut i: usize = 0;
    assert(byte_views(aggregated@) =~= Seq::<Seq<u8>>::empty());
    assert(parties.take(0) =~= Seq::<Seq<Seq<u8>>>::empty());
    while i < shares.len()
        invariant
            i <= shares@.len(),
            parties == party_views(shares@),
            combine_each(parties.take(i as int)) == Ok::<Seq<Seq<u8>>, ShareError>(
                byte_views(aggregated@),
            ),
        decreases shares@.len() - i,
    {
        assert(parties.take(i + 1).drop_last() =~= parties.take(i as int));
        assert(parties[i as int] == byte_views(shares[i as int]@));
        let ghost before = byte_views(aggregated@);
        match combine_secret_shares(shares[i].as_slice()) {
            Ok(secret) => {
                assert(combine_outcome(parties.take(i + 1).last()) == Ok::<Seq<u8>, ShareError>(
                    secret@,
                ));
                aggregated.push(secret);
                assert(byte_views(aggregated@) =~= before.push(secret@));
            },
            Err(e) => {
                proof {
                    lemma_combine_each_prefix(parties, i + 1);
                }
                return Err(e);
            },
        }
        i = i + 1;
    }
    assert(parties.take(i as int) =~= parties);
    let ghost secrets = byte_views(aggregated@);
    let mut result = aggregated[0].clone();
    assert(result@ == xor_fold(secrets.take(1)));
    let mut j: usize = 1;
    while j < aggregated.len()
        invariant
            1 <= j <= aggregated@.len(),
            secrets == byte_views(aggregated@),
            result@ == xor_fold(secrets.take(j as int)),
        decreases aggregated@.len() - j,
    {
        xor_into(&mut result, &aggregated[j]);
        assert(secrets.take(j + 1).drop_last() =~= secrets.take(j as int));
        j = j + 1;
    }
    assert(secrets.take(j as int) =~= secrets);
    Ok(result)
}

/// Two parties holding valid shares of secrets of one length aggregate to
/// the byte-wise XOR of the two secrets.
pub proof fn lemma_aggregate_two_parties(
    party_a: Seq<Seq<u8>>,
    party_b: Seq<Seq<u8>>,
    a: Seq<u8>,
    b: Seq<u8>,
)
    requires
        combine_outcome(party_a) == Ok::<Seq<u8>, ShareError>(a),
        combine_outcome(party_b) == Ok::<Seq<u8>, ShareError>(b),
        a.len() == b.len(),
    ensures
        aggregate_outcome(seq![party_a, party_b]) == Ok::<Seq<u8>, ShareError>(
            Seq::new(a.len(), |i: int| a[i] ^ b[i]),
        ),
{
    let parties = seq![party_a, party_b];
    assert(parties.drop_last() =~= seq![party_a]);
    assert(seq![party_a].drop_last() =~= Seq::<Seq<Seq<u8>>>::empty());
    assert(Seq::<Seq<u8>>::empty().push(a) =~= seq![a]);
    assert(seq![a].push(b) =~= seq![a, b]);
    assert(seq![party_a].last() == party_a);
    assert(parties.last() == party_b);
    assert(combine_each(Seq::<Seq<Seq<u8>>>::empty()) == Ok::<Seq<Seq<u8>>, ShareError>(
        Seq::empty(),
    ));
    assert(combine_each(seq![party_a]) == Ok::<Seq<Seq<u8>>, ShareError>(seq![a]));
    assert(combine_each(parties) == Ok::<Seq<Seq<u8>>, ShareError>(seq![a, b]));
    assert(seq![a, b].drop_last() =~= seq![a]);
    assert(xor_fold(seq![a]) == a);
    assert(seq![a, b].last() == b);
    assert(xor_fold(seq![a, b]) =~= Seq::new(a.len(), |i: int| a[i] ^ b[i]));
}

/// Two parties that each hold `k` or more distinct shares out of a split of
/// their secret, of one length, aggregate to the byte-wise XOR of the two
/// secrets; as for a single combine, neither secret may begin with a zero
/// byte and no chosen share may have a value that interpolation refuses.
pub proof fn lemma_split_shares_aggregate(
    a: Seq<u8>,
    ka: nat,
    na: nat,
    shares_a: Seq<Seq<u8>>,
    picks_a: Seq<int>,
    b: Seq<u8>,
    kb: nat,
    nb: nat,
    shares_b: Seq<Seq<u8>>,
    picks_b: Seq<int>,
)
    requires
        split_fault(a, ka, na) is None,
        split_shares_valid(pad32(a), ka, na, shares_a),
        picks_valid(picks_a, na),
        picks_a.len() >= ka,
        split_fault(b, kb, nb) is None,
        split_shares_valid(pad32(b), kb, nb, shares_b),
        picks_valid(picks_b, nb),
        picks_b.len() >= kb,
        a.len() == b.len(),
        a.len() >= 1,
        a[0] != 0,
        b[0] != 0,
        forall|j: int|
            0 <= j < picks_a.len() ==> !all_zero(share_value(shares_a[#[trigger] picks_a[j]]))
                && zero_test_defined(share_value(shares_a[picks_a[j]])),
        forall|j: int|
            0 <= j < picks_b.len() ==> !all_zero(share_value(shares_b[#[trigger] picks_b[j]]))
                && zero_test_defined(share_value(shares_b[picks_b[j]])),
    ensures
        aggregate_outcome(seq![pick(shares_a, picks_a), pick(shares_b, picks_b)]) == Ok::<
            Seq<u8>,
            ShareError,
        >(Seq::new(a.len(), |i: int| a[i] ^ b[i])),
{
    lemma_split_then_combine(a, ka, na, shares_a, picks_a);
    lemma_split_then_combine(b, kb, nb, shares_b, picks_b);
    lemma_aggregate_two_parties(pick(shares_a, picks_a), pick(shares_b, picks_b), a, b);
}

} // verus!
