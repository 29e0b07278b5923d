//! The keys of replicas: the strings whose digests place the virtual nodes
//! of an owner.

use vstd::prelude::*;
use vstd::string::StringExecFns;
use vstd::utf8::encode_utf8;
use vstd::utf8::is_ascii_chars;
use vstd::utf8::is_ascii_chars_encode_utf8;
use crate::digest::hashable;
use crate::digest::MAX_KEY_BYTES;

verus! {

/// The decimal digit that stands for `d`, for `d` below ten.
pub open spec fn digit(d: nat) -> char {
    (48 + d) as char
}

/// `n` written in decimal digits, without leading zeros.
pub open spec fn decimal(n: nat) -> Seq<char>
    decreases n,
{
    if n < 10 {
        seq![digit(n)]
    } else {
        decimal(n / 10).push(digit(n % 10))
    }
}

/// The string whose digest places replica `replica` of the owner named
/// `name`: the name, an underscore, and the replica in decimal.
pub open spec fn replica_key(name: Seq<char>, replica: nat) -> Seq<char> {
    name + seq!['_'] + decimal(replica)
}

/// The keys of the first `replicas` replicas of the owner named `name` are
/// all short enough for the digest.
pub open spec fn placeable(name: Seq<char>, replicas: usize) -> bool {
    forall|r: usize| r < replicas ==> hashable(#[trigger] replica_key(name, r as nat))
}

/// Writes out a number in decimal.
///
/// Trusted: calls `to_string` of `usize`, which std prints in decimal
/// digits without leading zeros.
#[verifier::external_body]
pub(crate) fn decimal_string(n: usize) -> (digits: String)
    ensures
        digits@ == decimal(n as nat),
{
    n.to_string()
}

/// Writes out the key of replica `replica` of the owner named `name`.
pub fn make_replica_key(name: &str, replica: usize) -> (key: String)
    ensures
        key@ == replica_key(name@, replica as nat),
{
    let digits = decimal_string(replica);
    let mut key = name.to_owned();
    key.append("_");
    key.append(digits.as_str());
    proof {
        reveal_strlit("_");
    }
    key
}

/// A number has at least one decimal digit, and all of them are ASCII.
pub proof fn lemma_decimal_is_ascii(n: nat)
    ensures
        decimal(n).len() >= 1,
        is_ascii_chars(decimal(n)),
    decreases n,
{
    if n >= 10 {
        lemma_decimal_is_ascii(n / 10);
    }
}

/// A larger number has no fewer decimal digits.
pub proof fn lemma_decimal_len_grows(a: nat, b: nat)
    requires
        a <= b,
    ensures
        decimal(a).len() <= decimal(b).len(),
    decreases b,
{
    lemma_decimal_is_ascii(b / 10);
    if a >= 10 {
        lemma_decimal_len_grows(a / 10, b / 10);
    }
}

/// Two strings one after the other are encoded as their encodings one after
/// the other.
pub proof fn lemma_encode_utf8_concat(a: Seq<char>, b: Seq<char>)
    ensures
        encode_utf8(a + b) == encode_utf8(a) + encode_utf8(b),
    decreases a.len(),
{
    if a.len() > 0 {
        lemma_encode_utf8_concat(a.drop_first(), b);
        assert((a + b).drop_first() =~= a.drop_first() + b);
    }
}

/// The key of a replica takes as many bytes as the name, and one for the
/// underscore, and one for each digit of the replica number.
pub proof fn lemma_replica_key_bytes(name: Seq<char>, replica: nat)
    ensures
        encode_utf8(replica_key(name, replica)).len() == encode_utf8(name).len() + 1 + decimal(replica).len(),
{
    let underscore = seq!['_'];
    lemma_encode_utf8_concat(name + underscore, decimal(replica));
    lemma_encode_utf8_concat(name, underscore);
    lemma_decimal_is_ascii(replica);
    is_ascii_chars_encode_utf8(decimal(replica));
    is_ascii_chars_encode_utf8(underscore);
}

/// How many decimal digits `n` has.
pub fn decimal_len(n: usize) -> (len: u64)
    ensures
        len == decimal(n as nat).len(),
{
    let mut len: u64 = 1;
    let mut rest: usize = n;
    while rest >= 10
        invariant
            len >= 1,
            len + rest <= n + 1,
            decimal(n as nat).len() == decimal(rest as nat).len() + len - 1,
        decreases rest,
    {
        rest = rest / 10;
        len += 1;
    }
    len
}

/// Whether the keys of the first `replicas` replicas of the owner named
/// `name` are all short enough for the digest.
pub fn is_placeable(name: &str, replicas: usize) -> (fits: bool)
    ensures
        fits == placeable(name@, replicas),
{
    if replicas == 0 {
        return true;
    }
    let last: usize = replicas - 1;
    let name_len = name.as_bytes().len() as u64;
    let digits = decimal_len(last);
    let fits = name_len < MAX_KEY_BYTES && digits <= MAX_KEY_BYTES - 1 - name_len;
    proof {
        lemma_replica_key_bytes(name@, last as nat);
        if fits {
            assert forall|r: usize| r < replicas implies hashable(#[trigger] replica_key(name@, r as nat)) by {
                lemma_replica_key_bytes(name@, r as nat);
                lemma_decimal_len_grows(r as nat, last as nat);
            }
        }
    }
    fits
}

} // verus!
