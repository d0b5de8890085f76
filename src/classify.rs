use crate::address::{address_of, pubkey_to_bech32};
use crate::model::{
    bytes_eq, contains_str, strs, ASSET_TYPE_LENGTH, PUBLIC_KEY_LENGTH, contains_string, AddrKind, RawOutput, TraceConfig, XfrAmount,
    XfrAssetType,
};
use vstd::prelude::*;

verus! {

/// The kind of the receiver whose key is `public_key`: the sinks by key, then
/// the reserved addresses by address.
pub open spec fn kind_of(cfg: &TraceConfig, public_key: Seq<u8>) -> AddrKind {
    if public_key == cfg.burn_key@ {
        AddrKind::FeeOrBurn
    } else if public_key == cfg.staking_key@ {
        AddrKind::StakingOrEvmConversion
    } else if contains_str(cfg.reserved@, address_of(public_key)) {
        AddrKind::Reserved
    } else {
        AddrKind::Normal
    }
}

/// The counted amount of an output: its value when it is a plain amount of the
/// native asset, nothing otherwise (a hidden amount, or any other asset).
pub open spec fn plain_amount(cfg: &TraceConfig, o: RawOutput) -> Option<u64> {
    match (o.asset_type, o.amount) {
        (XfrAssetType::NonConfidential(t), XfrAmount::NonConfidential(n)) => if t@
            == cfg.native_asset@ {
            Some(n)
        } else {
            None
        },
        _ => None,
    }
}

/// Whether the output goes to the fee and burn sink.
pub fn is_fee_or_burn(cfg: &TraceConfig, output: &RawOutput) -> (r: bool)
    ensures
        r == (output.public_key@ == cfg.burn_key@),
{
    bytes_eq(&output.public_key, &cfg.burn_key)
}

/// Whether the output goes to the staking and conversion sink.
pub fn is_staking_or_evm_conversion(cfg: &TraceConfig, output: &RawOutput) -> (r: bool)
    ensures
        r == (output.public_key@ == cfg.staking_key@),
{
    bytes_eq(&output.public_key, &cfg.staking_key)
}

/// Whether the output goes to one of the reserved addresses.
pub fn is_reserved(cfg: &TraceConfig, output: &RawOutput) -> (r: bool)
    ensures
        r == contains_str(cfg.reserved@, address_of(output.public_key@)),
{
    let addr = pubkey_to_bech32(&output.public_key);
    contains_string(&cfg.reserved, &addr)
}

/// The kind of the output's receiver.
pub fn gen_kind(cfg: &TraceConfig, output: &RawOutput) -> (r: AddrKind)
    ensures
        r == kind_of(cfg, output.public_key@),
{
    if is_fee_or_burn(cfg, output) {
        AddrKind::FeeOrBurn
    } else if is_staking_or_evm_conversion(cfg, output) {
        AddrKind::StakingOrEvmConversion
    } else if is_reserved(cfg, output) {
        AddrKind::Reserved
    } else {
        AddrKind::Normal
    }
}

/// The plain native amount of an output, if it has one.
pub fn get_nonconfidential_balance(cfg: &TraceConfig, output: &RawOutput) -> (r: Option<u64>)
    ensures
        r == plain_amount(cfg, *output),
{
    match (&output.asset_type, &output.amount) {
        (XfrAssetType::NonConfidential(t), XfrAmount::NonConfidential(n)) => {
            if bytes_eq(t, &cfg.native_asset) {
                Some(*n)
            } else {
                None
            }
        },
        _ => None,
    }
}

/// `n` copies of the byte `b`.
pub open spec fn filled_spec(b: u8, n: nat) -> Seq<u8> {
    Seq::new(n, |i: int| b)
}

/// A vector of `n` copies of the byte `b`.
pub fn filled(b: u8, n: usize) -> (r: Vec<u8>)
    ensures
        r@ == filled_spec(b, n as nat),
{
    let mut r: Vec<u8> = Vec::new();
    while r.len() < n
        invariant
            r@.len() <= n,
            forall|i: int| 0 <= i < r@.len() ==> r@[i] == b,
        decreases n - r@.len(),
    {
        r.push(b);
    }
    assert(r@ =~= filled_spec(b, n as nat));
    r
}

/// The ledger's reserved addresses; the last is the foundation's account.
pub open spec fn reserved_address_list() -> Seq<Seq<char>> {
    seq![
        "fra1s9c6p0656as48w8su2gxntc3zfuud7m66847j6yh7n8wezazws3s68p0m9"@,
        "fra1zjfttcnvyv9ypy2d4rcg7t4tw8n88fsdzpggr0y2h827kx5qxmjshwrlx7"@,
        "fra18rfyc9vfyacssmr5x7ku7udyd5j5vmfkfejkycr06e4as8x7n3dqwlrjrc"@,
        "fra1kvf8z5f5m8wmp2wfkscds45xv3yp384eszu2mpre836x09mq5cqsknltvj"@,
        "fra1w8s3e7v5a78623t8cq43uejtw90yzd0xctpwv63um5amtv72detq95v0dy"@,
        "fra1ukju0dhmx0sjwzcgjzgg3e7n6f755jkkfl9akq4hleulds9a0hgq4uzcp5"@,
        "fra1mjdr0mgn2e0670hxptpzu9tmf0ary8yj8nv90znjspwdupv9aacqwrg3dx"@,
        "fra1whn756rtqt3gpsmdlw6pvns75xdh3ttqslvxaf7eefwa83pcnlhsree9gv"@,
        "fra1dkn9w5c674grdl6gmvj0s8zs0z2nf39zrmp3dpq5rqnnf9axwjrqexqnd6"@,
    ]
}

/// The ledger's reserved addresses, which are also the default seeds of a trace.
pub fn reserved_addresses() -> (r: Vec<String>)
    ensures
        strs(r@) == reserved_address_list(),
{
    let mut r: Vec<String> = Vec::new();
    r.push(String::from_str("fra1s9c6p0656as48w8su2gxntc3zfuud7m66847j6yh7n8wezazws3s68p0m9"));
    r.push(String::from_str("fra1zjfttcnvyv9ypy2d4rcg7t4tw8n88fsdzpggr0y2h827kx5qxmjshwrlx7"));
    r.push(String::from_str("fra18rfyc9vfyacssmr5x7ku7udyd5j5vmfkfejkycr06e4as8x7n3dqwlrjrc"));
    r.push(String::from_str("fra1kvf8z5f5m8wmp2wfkscds45xv3yp384eszu2mpre836x09mq5cqsknltvj"));
    r.push(String::from_str("fra1w8s3e7v5a78623t8cq43uejtw90yzd0xctpwv63um5amtv72detq95v0dy"));
    r.push(String::from_str("fra1ukju0dhmx0sjwzcgjzgg3e7n6f755jkkfl9akq4hleulds9a0hgq4uzcp5"));
    r.push(String::from_str("fra1mjdr0mgn2e0670hxptpzu9tmf0ary8yj8nv90znjspwdupv9aacqwrg3dx"));
    r.push(String::from_str("fra1whn756rtqt3gpsmdlw6pvns75xdh3ttqslvxaf7eefwa83pcnlhsree9gv"));
    r.push(String::from_str("fra1dkn9w5c674grdl6gmvj0s8zs0z2nf39zrmp3dpq5rqnnf9axwjrqexqnd6"));
    assert(strs(r@) =~= reserved_address_list());
    r
}

impl TraceConfig {
    /// The ledger's own sinks and reserved addresses: the burn sink's key is all
    /// zero bytes, the staking sink's all one bytes, and the native asset's
    /// identifier all zero bytes.
    pub fn mainnet() -> (r: TraceConfig)
        ensures
            r.burn_key@ == filled_spec(0, PUBLIC_KEY_LENGTH as nat),
            r.staking_key@ == filled_spec(1, PUBLIC_KEY_LENGTH as nat),
            r.native_asset@ == filled_spec(0, ASSET_TYPE_LENGTH as nat),
            strs(r.reserved@) == reserved_address_list(),
    {
        TraceConfig {
            burn_key: filled(0, PUBLIC_KEY_LENGTH),
            staking_key: filled(1, PUBLIC_KEY_LENGTH),
            native_asset: filled(0, ASSET_TYPE_LENGTH),
            reserved: reserved_addresses(),
        }
    }
}

} // verus!
