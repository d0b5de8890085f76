use vstd::prelude::*;

verus! {

/// The bech32 encoding of `data` under the human-readable part `hrp`.
pub uninterp spec fn bech32_of(hrp: Seq<char>, data: Seq<u8>) -> Seq<char>;

/// Whether `c` is an ASCII lower-case letter.
pub open spec fn is_lower(c: char) -> bool {
    'a' <= c && c <= 'z'
}

/// Whether `c` is an ASCII upper-case letter.
pub open spec fn is_upper(c: char) -> bool {
    'A' <= c && c <= 'Z'
}

/// A human-readable part that bech32 accepts: 1 to 83 printable ASCII
/// characters, not of mixed case.
pub open spec fn hrp_ok(hrp: Seq<char>) -> bool {
    &&& 1 <= hrp.len() <= 83
    &&& forall|i: int| 0 <= i < hrp.len() ==> '!' <= #[trigger] hrp[i] && hrp[i] <= '~'
    &&& !((exists|i: int| 0 <= i < hrp.len() && is_lower(#[trigger] hrp[i])) && (exists|j: int|
        0 <= j < hrp.len() && is_upper(#[trigger] hrp[j])))
}

/// The human-readable part of the ledger's addresses.
pub open spec fn address_hrp() -> Seq<char> {
    seq!['f', 'r', 'a']
}

/// The address that encodes a public key.
pub open spec fn address_of(public_key: Seq<u8>) -> Seq<char> {
    bech32_of(address_hrp(), public_key)
}

/// Relies on `bech32::encode` over `ToBase32` of the bytes: it fails exactly
/// when the human-readable part is refused, and otherwise its result depends on
/// the two arguments alone. A part without upper-case letters is written as it
/// is, followed by the separator '1'.
#[verifier::external_body]
fn bech32_encode(hrp: &str, data: &[u8]) -> (r: Option<String>)
    ensures
        r is Some <==> hrp_ok(hrp@),
        r matches Some(s) ==> s@ == bech32_of(hrp@, data@),
        r matches Some(s) ==> ((forall|i: int| 0 <= i < hrp@.len() ==> !is_upper(#[trigger] hrp@[i]))
            ==> s@.len() > hrp@.len() && s@.subrange(0, hrp@.len() as int) == hrp@ && s@[hrp@.len() as int]
            == '1'),
{
    bech32::encode(hrp, bech32::ToBase32::to_base32(&data)).ok()
}

/// The address of a public key.
pub fn pubkey_to_bech32(public_key: &Vec<u8>) -> (r: String)
    ensures
        r@ == address_of(public_key@),
        r@.len() >= 4,
        r@.subrange(0, 4) == seq!['f', 'r', 'a', '1'],
{
    let hrp = "fra";
    proof {
        reveal_strlit("fra");
        assert(hrp@ =~= address_hrp());
        assert(!exists|j: int| 0 <= j < hrp@.len() && is_upper(#[trigger] hrp@[j]));
    }
    let r = bech32_encode(hrp, public_key.as_slice());
    let s = r.unwrap();
    assert(s@.subrange(0, 4) =~= seq!['f', 'r', 'a', '1']) by {
        assert(s@.subrange(0, 3) == hrp@);
    }
    s
}

} // verus!
