//! The wire protocol: a pipe-delimited request is parsed into a command,
//! which is dispatched to a transform or to the share engine.
//!
//! `<verb>|<rest>` where the verb is `hash`, `reverse` or `aes` (the rest is
//! the payload), `split` (`<secret>|<threshold>|<total>`), `combine`
//! (comma-separated hexadecimal shares) or `mpc` (parties separated by
//! pipes, each a comma-separated list of hexadecimal shares).
use crate::aes::AesEncryptor;
use crate::encoding::{from_hex, hex_bytes, hex_text, is_hex_text, push_char, to_hex};
use crate::hash_and_reverse::{
    encryption_error_text, EncryptionError, Encryptor, HashEncryptor, ReverseEncryptor,
};
use crate::mpc::{
    aggregate_outcome, aggregate_secrets, combine_command, combine_command_outcome, party_views,
    split_command, str_views, text_views,
};
use crate::secret_sharing::{byte_views, share_error_text, pad32, split_fault, split_shares_valid, ShareError};
use vstd::prelude::*;
use vstd::string::{StrSliceExecFns, StringExecFns};
use vstd::utf8::encode_utf8;

verus! {

/// The pieces of `s` between occurrences of `d` (one piece when `d` does
/// not occur).
pub open spec fn split_on(s: Seq<char>, d: char) -> Seq<Seq<char>>
    decreases s.len(),
{
    if s.len() == 0 {
        seq![Seq::empty()]
    } else {
        let init = split_on(s.drop_last(), d);
        if s.last() == d {
            init.push(Seq::empty())
        } else {
            init.update(init.len() - 1, init.last().push(s.last()))
        }
    }
}

/// The index of the first `d` in `s`, or the length of `s` when there is none.
pub open spec fn first_delim(s: Seq<char>, d: char) -> nat
    decreases s.len(),
{
    if s.len() == 0 {
        0
    } else if first_delim(s.drop_last(), d) < s.len() - 1 {
        first_delim(s.drop_last(), d)
    } else if s.last() == d {
        (s.len() - 1) as nat
    } else {
        s.len()
    }
}

pub open spec fn is_digit(c: char) -> bool {
    '0' <= c && c <= '9'
}

/// The value of a string of decimal digits.
pub open spec fn digits_value(s: Seq<char>) -> nat
    decreases s.len(),
{
    if s.len() == 0 {
        0
    } else {
        (digits_value(s.drop_last()) * 10 + (s.last() as u32 - 48)) as nat
    }
}

/// `s` without one leading `+`.
pub open spec fn unsigned_part(s: Seq<char>) -> Seq<char> {
    if s.len() > 0 && s[0] == '+' {
        s.drop_first()
    } else {
        s
    }
}

/// A count as the protocol reads it: an optional `+` and at least one digit,
/// with a value that fits in `usize`; anything else counts as 0.
pub open spec fn count_value(s: Seq<char>) -> nat {
    let t = unsigned_part(s);
    if t.len() > 0 && (forall|i: int| 0 <= i < t.len() ==> is_digit(#[trigger] t[i]))
        && digits_value(t) <= usize::MAX {
        digits_value(t)
    } else {
        0
    }
}

/// Which transform a request names.
#[derive(Clone, Copy, Debug, PartialEq, Eq, Structural)]
pub enum TransformVerb {
    Hash,
    Reverse,
    Aes,
}

/// A request, checked for shape.
#[derive(Debug)]
pub enum Command {
    Transform(TransformVerb, String),
    Split(String, usize, usize),
    Combine(Vec<String>),
    Aggregate(Vec<Vec<String>>),
}

/// Why a request could not be parsed; each keeps the verb (the whole
/// request when there is no `|`).
#[derive(Debug)]
pub enum ProtocolError {
    UnknownCommand(String),
    MalformedCommand(String),
}

/// The description of a protocol error, which names the verb.
pub open spec fn protocol_error_text(e: ProtocolError) -> Seq<char> {
    match e {
        ProtocolError::UnknownCommand(v) => "unknown command: "@ + v@,
        ProtocolError::MalformedCommand(v) => "malformed command: "@ + v@,
    }
}

impl ProtocolError {
    /// A short description of the error, naming the verb.
    pub fn message(&self) -> (r: String)
        ensures
            r@ == protocol_error_text(*self),
    {
        match self {
            ProtocolError::UnknownCommand(v) => {
                let mut m = String::from_str("unknown command: ");
                m.append(v.as_str());
                m
            },
            ProtocolError::MalformedCommand(v) => {
                let mut m = String::from_str("malformed command: ");
                m.append(v.as_str());
                m
            },
        }
    }
}

/// What `parse_command` returns for the request text `wire`.
pub open spec fn parses_to(wire: Seq<char>, r: Result<Command, ProtocolError>) -> bool {
    let k = first_delim(wire, '|');
    let verb = wire.take(k as int);
    let rest = wire.subrange(k as int + 1, wire.len() as int);
    if k >= wire.len() {
        r matches Err(ProtocolError::MalformedCommand(v)) && v@ == wire
    } else if verb == "hash"@ {
        r matches Ok(Command::Transform(TransformVerb::Hash, p)) && p@ == rest
    } else if verb == "reverse"@ {
        r matches Ok(Command::Transform(TransformVerb::Reverse, p)) && p@ == rest
    } else if verb == "aes"@ {
        r matches Ok(Command::Transform(TransformVerb::Aes, p)) && p@ == rest
    } else if verb == "split"@ {
        let args = split_on(rest, '|');
        if args.len() != 3 {
            r matches Err(ProtocolError::MalformedCommand(v)) && v@ == verb
        } else {
            r matches Ok(Command::Split(s, t, n)) && s@ == args[0] && t == count_value(args[1])
                && n == count_value(args[2])
        }
    } else if verb == "combine"@ {
        r matches Ok(Command::Combine(v)) && text_views(v@) == split_on(rest, ',')
    } else if verb == "mpc"@ {
        r matches Ok(Command::Aggregate(ps)) && ps@.len() == split_on(rest, '|').len() && (
        forall|i: int|
            0 <= i < ps@.len() ==> text_views((#[trigger] ps@[i])@) == split_on(
                split_on(rest, '|')[i],
                ',',
            ))
    } else {
        r matches Err(ProtocolError::UnknownCommand(v)) && v@ == verb
    }
}

proof fn lemma_split_on_nonempty(s: Seq<char>, d: char)
    ensures
        split_on(s, d).len() >= 1,
    decreases s.len(),
{
    if s.len() > 0 {
        lemma_split_on_nonempty(s.drop_last(), d);
    }
}

/// The characters of `s`.
fn chars_of(s: &str) -> (r: Vec<char>)
    ensures
        r@ == s@,
{
    let n = s.unicode_len();
    let mut r: Vec<char> = Vec::new();
    let mut i: usize = 0;
    while i < n
        invariant
            i <= n,
            n == s@.len(),
            r@ == s@.take(i as int),
        decreases n - i,
    {
        r.push(s.get_char(i));
        i = i + 1;
        assert(r@ =~= s@.take(i as int));
    }
    assert(s@.take(n as int) =~= s@);
    r
}

/// The characters of `cs` from `from` to `to` as a string.
fn text_of(cs: &Vec<char>, from: usize, to: usize) -> (r: String)
    requires
        from <= to <= cs@.len(),
    ensures
        r@ == cs@.subrange(from as int, to as int),
{
    let mut r = String::new();
    let mut i: usize = from;
    while i < to
        invariant
            from <= i <= to,
            to <= cs@.len(),
            r@ == cs@.subrange(from as int, i as int),
        decreases to - i,
    {
        push_char(&mut r, cs[i]);
        i = i + 1;
        assert(r@ =~= cs@.subrange(from as int, i as int));
    }
    r
}

/// The pieces of `cs[from..to]` between occurrences of `d`.
fn split_chars(cs: &Vec<char>, from: usize, to: usize, d: char) -> (r: Vec<String>)
    requires
        from <= to <= cs@.len(),
    ensures
        text_views(r@) == split_on(cs@.subrange(from as int, to as int), d),
{
    let ghost s = cs@.subrange(from as int, to as int);
    let mut pieces: Vec<String> = Vec::new();
    let mut cur = String::new();
    let mut i: usize = from;
    assert(s.take(0) =~= Seq::<char>::empty());
    assert(text_views(pieces@).push(cur@) =~= seq![Seq::<char>::empty()]);
    while i < to
        invariant
            from <= i <= to,
            to <= cs@.len(),
            s == cs@.subrange(from as int, to as int),
            text_views(pieces@).push(cur@) == split_on(s.take(i - from), d),
        decreases to - i,
    {
        let c = cs[i];
        let ghost before = s.take(i - from);
        assert(s.take(i + 1 - from).drop_last() =~= before);
        assert(s.take(i + 1 - from).last() == c);
        proof {
            lemma_split_on_nonempty(before, d);
        }
        if c == d {
            let done = cur;
            pieces.push(done);
            cur = String::new();
            assert(text_views(pieces@).push(cur@) =~= split_on(before, d).push(Seq::empty()));
        } else {
            push_char(&mut cur, c);
            assert(text_views(pieces@).push(cur@) =~= split_on(before, d).update(
                split_on(before, d).len() - 1,
                split_on(before, d).last().push(c),
            ));
        }
        i = i + 1;
    }
    assert(s.take(to - from) =~= s);
    pieces.push(cur);
    assert(text_views(pieces@) =~= split_on(s, d));
    pieces
}

/// Whether `cs[..k]` is the word `w`.
fn is_word(cs: &Vec<char>, k: usize, w: &str) -> (r: bool)
    requires
        k <= cs@.len(),
    ensures
        r == (cs@.take(k as int) == w@),
{
    let n = w.unicode_len();
    if n != k {
        return false;
    }
    let mut i: usize = 0;
    while i < n
        invariant
            i <= n,
            n == k,
            k <= cs@.len(),
            n == w@.len(),
            cs@.take(i as int) == w@.take(i as int),
        decreases n - i,
    {
        if cs[i] != w.get_char(i) {
            assert(cs@.take(k as int)[i as int] != w@[i as int]);
            return false;
        }
        i = i + 1;
        assert(cs@.take(i as int) =~= w@.take(i as int));
    }
    assert(cs@.take(k as int) =~= w@.take(n as int));
    assert(w@.take(n as int) =~= w@);
    true
}

proof fn lemma_digits_grow(t: Seq<char>, i: int)
    requires
        0 <= i <= t.len(),
        forall|j: int| 0 <= j < t.len() ==> is_digit(#[trigger] t[j]),
    ensures
        digits_value(t) >= digits_value(t.take(i)),
    decreases t.len(),
{
    if i < t.len() {
        assert(t.drop_last().take(i) =~= t.take(i));
        assert(is_digit(t[t.len() - 1]));
        lemma_digits_grow(t.drop_last(), i);
    } else {
        assert(t.take(i) =~= t);
    }
}

/// Reads a count from `s` as `count_value` says.
pub fn parse_count(s: &str) -> (r: usize)
    ensures
        r == count_value(s@),
{
    let cs = chars_of(s);
    let n = cs.len();
    let start: usize = if n > 0 && cs[0] == '+' {
        1
    } else {
        0
    };
    let ghost t = unsigned_part(s@);
    assert(t =~= cs@.subrange(start as int, n as int));
    assert(count_value(s@) == if t.len() > 0 && (forall|j: int|
        0 <= j < t.len() ==> is_digit(#[trigger] t[j])) && digits_value(t) <= usize::MAX {
        digits_value(t)
    } else {
        0
    });
    if start == n {
        return 0;
    }
    let mut value: usize = 0;
    let mut i: usize = start;
    while i < n
        invariant
            start <= i <= n,
            n == cs@.len(),
            t == cs@.subrange(start as int, n as int),
            t == unsigned_part(s@),
            forall|j: int| 0 <= j < i - start ==> is_digit(#[trigger] t[j]),
            value == digits_value(t.take(i - start)),
        decreases n - i,
    {
        let c = cs[i];
        assert(t.take(i + 1 - start).drop_last() =~= t.take(i - start));
        assert(t.take(i + 1 - start).last() == c);
        if !('0' <= c && c <= '9') {
            assert(!is_digit(t[i - start]));
            assert(!(forall|j: int| 0 <= j < t.len() ==> is_digit(#[trigger] t[j])));
            return 0;
        }
        let digit = (c as u32 - 48) as usize;
        if value > (usize::MAX - digit) / 10 {
            proof {
                assert(digits_value(t.take(i + 1 - start)) > usize::MAX) by (nonlinear_arith)
                    requires
                        value > (usize::MAX - digit) / 10,
                        digits_value(t.take(i + 1 - start)) == value * 10 + digit,
                        digit <= 9,
                ;
                if forall|j: int| 0 <= j < t.len() ==> is_digit(#[trigger] t[j]) {
                    lemma_digits_grow(t, i + 1 - start);
                    assert(digits_value(t) > usize::MAX);
                }
            }
            return 0;
        }
        value = value * 10 + digit;
        i = i + 1;
    }
    assert(t.take(n - start) =~= t);
    value
}

proof fn lemma_first_delim(s: Seq<char>, d: char, k: int)
    requires
        0 <= k <= s.len(),
        forall|j: int| 0 <= j < k ==> s[j] != d,
        k == s.len() || s[k] == d,
    ensures
        first_delim(s, d) == k,
    decreases s.len(),
{
    if s.len() > 0 {
        if k < s.len() - 1 {
            lemma_first_delim(s.drop_last(), d, k);
        } else {
            lemma_first_delim(s.drop_last(), d, s.len() - 1);
        }
    }
}

/// Parses a request; see `parses_to` for the grammar and its errors.
pub fn parse_command(wire: &str) -> (r: Result<Command, ProtocolError>)
    ensures
        parses_to(wire@, r),
{
    let cs = chars_of(wire);
    let n = cs.len();
    let mut k: usize = 0;
    while k < n && cs[k] != '|'
        invariant
            k <= n,
            n == cs@.len(),
            forall|j: int| 0 <= j < k ==> cs@[j] != '|',
        decreases n - k,
    {
        k = k + 1;
    }
    proof {
        lemma_first_delim(cs@, '|', k as int);
    }
    if k == n {
        assert(cs@.subrange(0, n as int) =~= cs@);
        return Err(ProtocolError::MalformedCommand(text_of(&cs, 0, n)));
    }
    assert(cs@.subrange(0, k as int) =~= cs@.take(k as int));
    if is_word(&cs, k, "hash") {
        Ok(Command::Transform(TransformVerb::Hash, text_of(&cs, k + 1, n)))
    } else if is_word(&cs, k, "reverse") {
        Ok(Command::Transform(TransformVerb::Reverse, text_of(&cs, k + 1, n)))
    } else if is_word(&cs, k, "aes") {
        Ok(Command::Transform(TransformVerb::Aes, text_of(&cs, k + 1, n)))
    } else if is_word(&cs, k, "split") {
        let args = split_chars(&cs, k + 1, n, '|');
        if args.len() != 3 {
            return Err(ProtocolError::MalformedCommand(text_of(&cs, 0, k)));
        }
        assert(args@[0]@ == text_views(args@)[0]);
        assert(args@[1]@ == text_views(args@)[1]);
        assert(args@[2]@ == text_views(args@)[2]);
        let secret = args[0].clone();
        let threshold = parse_count(args[1].as_str());
        let total = parse_count(args[2].as_str());
        Ok(Command::Split(secret, threshold, total))
    } else if is_word(&cs, k, "combine") {
        Ok(Command::Combine(split_chars(&cs, k + 1, n, ',')))
    } else if is_word(&cs, k, "mpc") {
        let groups = split_chars(&cs, k + 1, n, '|');
        let ghost rest = cs@.subrange(k + 1, n as int);
        let mut parties: Vec<Vec<String>> = Vec::new();
        let mut i: usize = 0;
        while i < groups.len()
            invariant
                i <= groups@.len(),
                text_views(groups@) == split_on(rest, '|'),
                parties@.len() == i,
                forall|j: int|
                    0 <= j < i ==> text_views((#[trigger] parties@[j])@) == split_on(
                        split_on(rest, '|')[j],
                        ',',
                    ),
            decreases groups@.len() - i,
        {
            let gs = chars_of(groups[i].as_str());
            assert(gs@ == split_on(rest, '|')[i as int]);
            assert(gs@.subrange(0, gs@.len() as int) =~= gs@);
            let shares = split_chars(&gs, 0, gs.len(), ',');
            parties.push(shares);
            i = i + 1;
        }
        Ok(Command::Aggregate(parties))
    } else {
        Err(ProtocolError::UnknownCommand(text_of(&cs, 0, k)))
    }
}

/// Why a request failed.
#[derive(Debug)]
pub enum Failure {
    Protocol(ProtocolError),
    Encryption(EncryptionError),
    Share(ShareError),
}

/// The description of a failure.
pub open spec fn failure_text(f: Failure) -> Seq<char> {
    match f {
        Failure::Protocol(e) => protocol_error_text(e),
        Failure::Encryption(e) => encryption_error_text(e),
        Failure::Share(e) => share_error_text(e),
    }
}

impl Failure {
    /// A short description of the failure.
    pub fn message(&self) -> (r: String)
        ensures
            r@ == failure_text(*self),
    {
        match self {
            Failure::Protocol(e) => e.message(),
            Failure::Encryption(e) => e.message(),
            Failure::Share(e) => e.message(),
        }
    }
}

/// The answer to one request.
#[derive(Debug)]
pub enum Response {
    Text(String),
    Error(Failure),
}

impl Response {
    /// The text sent back: the result itself, or `Error: ` and a message.
    pub fn to_text(&self) -> (r: String)
        ensures
            self matches Response::Text(s) ==> r@ == s@,
            self matches Response::Error(f) ==> r@ == "Error: "@ + failure_text(*f),
    {
        match self {
            Response::Text(s) => s.clone(),
            Response::Error(f) => {
                let mut r = String::from_str("Error: ");
                let m = f.message();
                r.append(m.as_str());
                assert(r@ == "Error: "@ + m@);
                r
            },
        }
    }
}

/// The pieces joined, with `d` between each two.
pub open spec fn join_with(pieces: Seq<Seq<char>>, d: char) -> Seq<char>
    decreases pieces.len(),
{
    if pieces.len() == 0 {
        Seq::empty()
    } else if pieces.len() == 1 {
        pieces[0]
    } else {
        join_with(pieces.drop_last(), d).push(d) + pieces.last()
    }
}

/// A share text as the aggregate reads it: text that is no hexadecimal
/// counts as an empty share.
pub open spec fn lenient_hex(t: Seq<char>) -> Seq<u8> {
    if is_hex_text(t) {
        hex_bytes(t)
    } else {
        Seq::empty()
    }
}

pub open spec fn decoded_parties(ps: Seq<Vec<String>>) -> Seq<Seq<Seq<u8>>> {
    ps.map_values(|p: Vec<String>| p@.map_values(|t: String| lenient_hex(t@)))
}

/// What `dispatch` answers to `cmd`, with `salt` appended to transform
/// payloads and `cipher` as the block cipher.
pub open spec fn dispatches_to(cmd: Command, salt: Seq<char>, cipher: AesEncryptor, r: Response) -> bool {
    match cmd {
        Command::Transform(TransformVerb::Hash, p) => r matches Response::Text(s) && s@
            == HashEncryptor.spec_encrypt(p@, salt) && s@.len() == HashEncryptor.spec_len(p@, salt),
        Command::Transform(TransformVerb::Reverse, p) => r matches Response::Text(s) && s@
            == ReverseEncryptor.spec_encrypt(p@, salt) && s@.len() == ReverseEncryptor.spec_len(p@, salt),
        Command::Transform(TransformVerb::Aes, p) => r matches Response::Text(s) && s@
            == cipher.spec_encrypt(p@, salt) && s@.len() == cipher.spec_len(p@, salt),
        Command::Split(secret, t, n) => match split_fault(encode_utf8(secret@), t as nat, n as nat) {
            Some(e) => r == Response::Error(Failure::Share(e)),
            None => r matches Response::Text(s) && exists|shares: Seq<Seq<u8>>|
                split_shares_valid(pad32(encode_utf8(secret@)), t as nat, n as nat, shares) && s@
                    == join_with(shares.map_values(|b: Seq<u8>| hex_text(b)), ','),
        },
        Command::Combine(v) => match combine_command_outcome(text_views(v@)) {
            Ok(x) => r matches Response::Text(s) && s@ == x,
            Err(e) => r == Response::Error(Failure::Share(e)),
        },
        Command::Aggregate(ps) => match aggregate_outcome(decoded_parties(ps@)) {
            Ok(b) => r matches Response::Text(s) && s@ == hex_text(b),
            Err(e) => r == Response::Error(Failure::Share(e)),
        },
    }
}

/// The texts joined, with `d` between each two.
fn join_texts(v: &Vec<String>, d: char) -> (r: String)
    ensures
        r@ == join_with(text_views(v@), d),
{
    let ghost views = text_views(v@);
    let mut r = String::new();
    let mut i: usize = 0;
    assert(views.take(0) =~= Seq::<Seq<char>>::empty());
    while i < v.len()
        invariant
            i <= v@.len(),
            views == text_views(v@),
            r@ == join_with(views.take(i as int), d),
        decreases v@.len() - i,
    {
        assert(views.take(i + 1).drop_last() =~= views.take(i as int));
        assert(views.take(i + 1).last() == v@[i as int]@);
        if i > 0 {
            push_char(&mut r, d);
        } else {
            assert(r@ =~= Seq::<char>::empty());
        }
        r.append(v[i].as_str());
        i = i + 1;
    }
    assert(views.take(i as int) =~= views);
    r
}

/// Carries out a parsed command. Transform payloads get `salt` appended; the
/// block cipher is `cipher`.
pub fn dispatch(cmd: &Command, salt: &str, cipher: &AesEncryptor) -> (r: Response)
    ensures
        dispatches_to(*cmd, salt@, *cipher, r),
{
    match cmd {
        Command::Transform(verb, payload) => {
            let out = match verb {
                TransformVerb::Hash => HashEncryptor.encrypt(payload.as_str(), salt),
                TransformVerb::Reverse => ReverseEncryptor.encrypt(payload.as_str(), salt),
                TransformVerb::Aes => cipher.encrypt(payload.as_str(), salt),
            };
            match out {
                Ok(s) => Response::Text(s),
                Err(e) => Response::Error(Failure::Encryption(e)),
            }
        },
        Command::Split(secret, threshold, total) => {
            match split_command(secret.as_str(), *threshold, *total) {
                Ok(shares) => {
                    let ghost chosen = choose|chosen: Seq<Seq<u8>>|
                        split_shares_valid(
                            pad32(encode_utf8(secret@)),
                            *threshold as nat,
                            *total as nat,
                            chosen,
                        ) && text_views(shares@) == chosen.map_values(|b: Seq<u8>| hex_text(b));
                    let text = join_texts(&shares, ',');
                    assert(split_shares_valid(
                        pad32(encode_utf8(secret@)),
                        *threshold as nat,
                        *total as nat,
                        chosen,
                    ));
                    Response::Text(text)
                },
                Err(e) => Response::Error(Failure::Share(e)),
            }
        },
        Command::Combine(texts) => {
            let mut refs: Vec<&str> = Vec::new();
            let mut i: usize = 0;
            while i < texts.len()
                invariant
                    i <= texts@.len(),
                    refs@.len() == i,
                    forall|j: int| 0 <= j < i ==> (#[trigger] refs@[j])@ == texts@[j]@,
                decreases texts@.len() - i,
            {
                refs.push(texts[i].as_str());
                i = i + 1;
            }
            assert(str_views(refs@) =~= text_views(texts@));
            match combine_command(refs) {
                Ok(s) => Response::Text(s),
                Err(e) => Response::Error(Failure::Share(e)),
            }
        },
        Command::Aggregate(parties) => {
            let ghost want = decoded_parties(parties@);
            let mut decoded: Vec<Vec<Vec<u8>>> = Vec::new();
            let mut i: usize = 0;
            while i < parties.len()
                invariant
                    i <= parties@.len(),
                    want == decoded_parties(parties@),
                    decoded@.len() == i,
                    forall|j: int|
                        0 <= j < i ==> byte_views((#[trigger] decoded@[j])@)
                            == want[j],
                decreases parties@.len() - i,
            {
                let party = &parties[i];
                let mut blobs: Vec<Vec<u8>> = Vec::new();
                let mut j: usize = 0;
                while j < party.len()
                    invariant
                        j <= party@.len(),
                        blobs@.len() == j,
                        forall|m: int|
                            0 <= m < j ==> (#[trigger] blobs@[m])@ == lenient_hex(party@[m]@),
                    decreases party@.len() - j,
                {
                    let b = match from_hex(party[j].as_str()) {
                        Ok(b) => b,
                        Err(_) => Vec::new(),
                    };
                    blobs.push(b);
                    j = j + 1;
                }
                assert(byte_views(blobs@) =~= want[i as int]);
                decoded.push(blobs);
                i = i + 1;
            }
            assert(party_views(decoded@) =~= want);
            match aggregate_secrets(decoded) {
                Ok(b) => Response::Text(to_hex(b.as_slice())),
                Err(e) => Response::Error(Failure::Share(e)),
            }
        },
    }
}

/// Answers one request: parses it, then dispatches it with the salt
/// `salt_bytes` written as hexadecimal; a request that does not parse is
/// answered with its protocol error.
pub fn handle_request(wire: &str, salt_bytes: &[u8], cipher: &AesEncryptor) -> (r: Response)
    ensures
        exists|c: Result<Command, ProtocolError>|
            parses_to(wire@, c) && match c {
                Ok(cmd) => dispatches_to(cmd, hex_text(salt_bytes@), *cipher, r),
                Err(e) => r == Response::Error(Failure::Protocol(e)),
            },
{
    let parsed = parse_command(wire);
    let ghost c = parsed;
    let salt = to_hex(salt_bytes);
    match parsed {
        Ok(cmd) => dispatch(&cmd, salt.as_str(), cipher),
        Err(e) => Response::Error(Failure::Protocol(e)),
    }
}

/// A split whose threshold reads as zero (as `0`, or as text that is no
/// count) is answered with a share error, never with shares; for a secret of
/// at most 32 bytes that error is `InvalidThreshold`.
pub proof fn lemma_zero_threshold_split_is_error(
    secret: String,
    total: usize,
    salt: Seq<char>,
    cipher: AesEncryptor,
    r: Response,
)
    requires
        dispatches_to(Command::Split(secret, 0, total), salt, cipher, r),
    ensures
        r matches Response::Error(Failure::Share(e)) && (encode_utf8(secret@).len() <= 32 ==> e
            == ShareError::InvalidThreshold),
{
}

} // verus!
