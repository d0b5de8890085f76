use vstd::prelude::*;

verus! {

/// Length of an asset type identifier, in bytes.
pub const ASSET_TYPE_LENGTH: usize = 32;

/// Length of a public key, in bytes.
pub const PUBLIC_KEY_LENGTH: usize = 32;

/// What a receiver is, as far as the report is concerned.
#[derive(Clone, Copy, Debug, PartialEq, Eq, Structural)]
pub enum AddrKind {
    Normal,
    FeeOrBurn,
    StakingOrEvmConversion,
    Reserved,
}

/// The asset type of an output: visible, or hidden by the confidential format.
#[derive(Debug)]
pub enum XfrAssetType {
    Confidential,
    NonConfidential(Vec<u8>),
}

/// The amount of an output: a plain value, or hidden by the confidential format.
#[derive(Debug)]
pub enum XfrAmount {
    Confidential,
    NonConfidential(u64),
}

/// One transfer or issuance output.
#[derive(Debug)]
pub struct RawOutput {
    pub public_key: Vec<u8>,
    pub asset_type: XfrAssetType,
    pub amount: XfrAmount,
}

/// The operations of a transaction; only transfers and issuances carry outputs
/// that the trace follows.
#[derive(Debug)]
pub enum Operation {
    TransferAsset(Vec<RawOutput>),
    IssueAsset(Vec<RawOutput>),
    Ignored,
}

/// A transaction as the indexing service lists it: its height, its execution
/// result code (0 on success) and its operations.
#[derive(Debug)]
pub struct Tx {
    pub height: u64,
    pub code: u64,
    pub operations: Vec<Operation>,
}

/// The outputs that an operation contributes to a trace.
pub open spec fn op_outputs(op: Operation) -> Seq<RawOutput> {
    match op {
        Operation::TransferAsset(v) => v@,
        Operation::IssueAsset(v) => v@,
        Operation::Ignored => Seq::empty(),
    }
}

/// Fixed keys and addresses that the classifier compares receivers against.
#[derive(Debug)]
pub struct TraceConfig {
    /// Key of the fee and burn sink.
    pub burn_key: Vec<u8>,
    /// Key of the staking and conversion sink.
    pub staking_key: Vec<u8>,
    /// Identifier of the native asset.
    pub native_asset: Vec<u8>,
    /// Addresses reported as reserved.
    pub reserved: Vec<String>,
}

/// Whether `s` is the view of one of the strings in `v`.
pub open spec fn contains_str(v: Seq<String>, s: Seq<char>) -> bool {
    exists|i: int| 0 <= i < v.len() && #[trigger] v[i]@ == s
}

/// Saturating addition on `u64`.
pub open spec fn sat_add(a: u64, b: u64) -> u64 {
    if a + b > u64::MAX {
        u64::MAX
    } else {
        (a + b) as u64
    }
}

/// Copies a byte vector.
pub fn copy_bytes(b: &Vec<u8>) -> (r: Vec<u8>)
    ensures
        r@ == b@,
{
    let mut r: Vec<u8> = Vec::new();
    let mut i: usize = 0;
    while i < b.len()
        invariant
            i <= b.len(),
            r@ == b@.subrange(0, i as int),
        decreases b.len() - i,
    {
        r.push(b[i]);
        i = i + 1;
    }
    assert(r@ =~= b@);
    r
}

/// Byte-wise equality.
pub fn bytes_eq(a: &Vec<u8>, b: &Vec<u8>) -> (r: bool)
    ensures
        r == (a@ == b@),
{
    if a.len() != b.len() {
        return false;
    }
    let mut i: usize = 0;
    while i < a.len()
        invariant
            i <= a.len(),
            a.len() == b.len(),
            a@.subrange(0, i as int) == b@.subrange(0, i as int),
        decreases a.len() - i,
    {
        if a[i] != b[i] {
            assert(a@[i as int] != b@[i as int]);
            return false;
        }
        assert(a@.subrange(0, i + 1) =~= a@.subrange(0, i as int).push(a@[i as int]));
        assert(b@.subrange(0, i + 1) =~= b@.subrange(0, i as int).push(b@[i as int]));
        i = i + 1;
    }
    assert(a@ =~= a@.subrange(0, i as int));
    assert(b@ =~= b@.subrange(0, i as int));
    true
}

/// Whether `v` holds a string equal to `s`.
pub fn contains_string(v: &Vec<String>, s: &String) -> (r: bool)
    ensures
        r == contains_str(v@, s@),
{
    let mut i: usize = 0;
    while i < v.len()
        invariant
            i <= v.len(),
            forall|j: int| 0 <= j < i ==> v@[j]@ != s@,
        decreases v.len() - i,
    {
        if v[i] == *s {
            return true;
        }
        i = i + 1;
    }
    false
}

/// The views of a sequence of strings.
pub open spec fn strs(v: Seq<String>) -> Seq<Seq<char>> {
    v.map_values(|x: String| x@)
}

/// `contains_str` is membership among the views.
pub proof fn lemma_contains_str(v: Seq<String>, s: Seq<char>)
    ensures
        contains_str(v, s) == strs(v).contains(s),
{
    if contains_str(v, s) {
        let i = choose|i: int| 0 <= i < v.len() && #[trigger] v[i]@ == s;
        assert(strs(v)[i] == s);
    }
    if strs(v).contains(s) {
        let i = choose|i: int| 0 <= i < strs(v).len() && strs(v)[i] == s;
        assert(v[i]@ == s);
    }
}

} // verus!
