//! Node identities: the 128-bit uuids every instance is addressed by, their
//! text forms, and the identity a node inside a group takes once the group
//! is flattened.

use vstd::prelude::*;
use vstd::arithmetic::power::pow;

verus! {

/// One lowercase hexadecimal digit.
pub open spec fn hex_digit(d: int) -> char {
    if d == 0 { '0' } else if d == 1 { '1' } else if d == 2 { '2' } else if d == 3 { '3' }
    else if d == 4 { '4' } else if d == 5 { '5' } else if d == 6 { '6' } else if d == 7 { '7' }
    else if d == 8 { '8' } else if d == 9 { '9' } else if d == 10 { 'a' } else if d == 11 { 'b' }
    else if d == 12 { 'c' } else if d == 13 { 'd' } else if d == 14 { 'e' } else { 'f' }
}

/// The 32 hexadecimal digits of an id, most significant first.
pub open spec fn simple_form(id: u128) -> Seq<char> {
    Seq::new(32, |k: int| hex_digit(((id as int) / pow(16, (31 - k) as nat)) % 16))
}

/// The hyphenated text form of an id: 8-4-4-4-12 lowercase hex digits.
pub open spec fn hyphenated(id: u128) -> Seq<char> {
    let s = simple_form(id);
    s.subrange(0, 8) + seq!['-'] + s.subrange(8, 12) + seq!['-'] + s.subrange(12, 16)
        + seq!['-'] + s.subrange(16, 20) + seq!['-'] + s.subrange(20, 32)
}

/// What `uuid::Uuid::parse_str` reads a text as: the id, or none when the
/// text is not one of the uuid forms the crate accepts.
pub uninterp spec fn parsed_uuid(text: Seq<char>) -> Option<u128>;

/// The text form of an id, as `uuid::Uuid`'s `Display` writes it — the
/// hyphenated lowercase form, which the crate documents and formats with
/// `format_hyphenated`.
#[verifier::external_body]
pub fn uuid_text(id: u128) -> (text: String)
    ensures
        text@ == hyphenated(id),
{
    uuid::Uuid::from_u128(id).to_string()
}

/// The id a text names, read by `uuid::Uuid::parse_str`: none when the
/// crate refuses the text. Which texts the crate accepts — simple,
/// hyphenated, braced, and urn forms — is left to its name, but for the one
/// fact the crate documents of its own output: every format it generates,
/// the hyphenated one among them, parses back to the id it was made from.
#[verifier::external_body]
pub fn parse_uuid(text: &str) -> (id: Option<u128>)
    ensures
        id == parsed_uuid(text@),
        forall|x: u128| #[trigger] hyphenated(x) == text@ ==> id == Some(x),
{
    uuid::Uuid::parse_str(text).ok().map(|uuid| uuid.as_u128())
}

/// A fresh random id from `uuid::Uuid::new_v4`. Its random bits depend on
/// the random source; what the call fixes is stated: the version nibble is
/// 4 (random) and the variant bits are `10` (RFC 4122).
#[verifier::external_body]
pub fn fresh_uuid() -> (id: u128)
    ensures
        (id >> 76u128) & 0xFu128 == 4u128,
        (id >> 62u128) & 0x3u128 == 2u128,
{
    uuid::Uuid::new_v4().as_u128()
}

/// One step of the identity fold: the enclosing instance XORed in, the
/// accumulator rotated left one bit.
pub open spec fn fold_step(id: u128, instance: u128) -> u128 {
    let x = id ^ instance;
    (x << 1u128) | (x >> 127u128)
}

/// The compiled identity of `node` inside the chain of group instances
/// enclosing it, innermost first: each instance folded in turn.
pub open spec fn identity_of(chain: Seq<u128>, node: u128) -> u128
    decreases chain.len(),
{
    if chain.len() == 0 {
        node
    } else {
        fold_step(identity_of(chain.drop_last(), node), chain.last())
    }
}

/// The compiled identity of a node inside a group: derived from the chain
/// of group instances enclosing it — innermost first — plus the node's own
/// uuid. Each enclosing instance is XORed in and the accumulator rotated
/// one bit, so the fold is order-sensitive, not a set.
pub fn inner_identity(chain: &[u128], node: u128) -> (id: u128)
    ensures
        id == identity_of(chain@, node),
{
    let mut id = node;
    let mut i: usize = 0;
    while i < chain.len()
        invariant
            i <= chain.len(),
            id == identity_of(chain@.subrange(0, i as int), node),
        decreases chain.len() - i,
    {
        let x = id ^ chain[i];
        id = (x << 1u128) | (x >> 127u128);
        assert(chain@.subrange(0, i + 1).drop_last() =~= chain@.subrange(0, i as int));
        i = i + 1;
    }
    assert(chain@.subrange(0, chain.len() as int) =~= chain@);
    id
}

proof fn lemma_fold_step_injective(a: u128, b: u128, instance: u128)
    requires
        fold_step(a, instance) == fold_step(b, instance),
    ensures
        a == b,
{
    assert(((a ^ instance) << 1u128) | ((a ^ instance) >> 127u128)
        == ((b ^ instance) << 1u128) | ((b ^ instance) >> 127u128) ==> a == b) by (bit_vector);
}

/// Under one enclosing chain, distinct inner nodes take distinct compiled
/// identities: which inner node an identity names is recoverable.
pub proof fn inner_identity_is_injective(chain: Seq<u128>, a: u128, b: u128)
    requires
        identity_of(chain, a) == identity_of(chain, b),
    ensures
        a == b,
    decreases chain.len(),
{
    if chain.len() > 0 {
        lemma_fold_step_injective(
            identity_of(chain.drop_last(), a),
            identity_of(chain.drop_last(), b),
            chain.last(),
        );
        inner_identity_is_injective(chain.drop_last(), a, b);
    }
}

} // verus!
