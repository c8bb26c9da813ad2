//! Merchant-category (MCC) risk table: fixed entries with a fallback for
//! unknown categories.

use vstd::prelude::*;
use vstd::string::StringSliceAdditionalSpecFns;
use crate::text::{bytes_eq, push_all};

verus! {

/// Risk of a category that the table does not list, in hundredths (`0.5`).
pub const MCC_DEFAULT_RISK: u8 = 50;

/// What the table gives for `mcc`: the risk of the first entry whose key is
/// `mcc`, else `MCC_DEFAULT_RISK`.
pub open spec fn spec_lookup(entries: Seq<(Seq<u8>, u8)>, mcc: Seq<u8>) -> u8
    decreases entries.len(),
{
    if entries.len() == 0 {
        MCC_DEFAULT_RISK
    } else if entries[0].0 == mcc {
        entries[0].1
    } else {
        spec_lookup(entries.drop_first(), mcc)
    }
}

/// MCC → risk, in hundredths (`15` stands for `0.15`).
#[derive(Debug, Clone)]
pub struct McCRiskTable {
    entries: Vec<(Vec<u8>, u8)>,
}

impl View for McCRiskTable {
    type V = Seq<(Seq<u8>, u8)>;

    closed spec fn view(&self) -> Seq<(Seq<u8>, u8)> {
        self.entries@.map_values(|e: (Vec<u8>, u8)| (e.0@, e.1))
    }
}

impl McCRiskTable {
    /// A table of the given (key, risk in hundredths) entries, in order.
    pub fn new(entries: Vec<(Vec<u8>, u8)>) -> (r: Self)
        ensures
            r@ == entries@.map_values(|e: (Vec<u8>, u8)| (e.0@, e.1)),
    {
        McCRiskTable { entries }
    }

    /// The risk of `mcc`, in hundredths; `MCC_DEFAULT_RISK` when unknown.
    pub fn lookup(&self, mcc: &[u8]) -> (r: u8)
        ensures
            r == spec_lookup(self@, mcc@),
    {
        let mut i: usize = 0;
        assert(self@.skip(0) =~= self@);
        while i < self.entries.len()
            invariant
                i <= self.entries@.len(),
                spec_lookup(self@, mcc@) == spec_lookup(self@.skip(i as int), mcc@),
            decreases self.entries@.len() - i,
        {
            let ghost rest = self@.skip(i as int);
            assert(rest.drop_first() =~= self@.skip(i + 1));
            assert(rest[0] == (self.entries@[i as int].0@, self.entries@[i as int].1));
            if bytes_eq(self.entries[i].0.as_slice(), mcc) {
                return self.entries[i].1;
            }
            i += 1;
        }
        MCC_DEFAULT_RISK
    }
}


/// The official table (`mcc_risk.json`), risks in hundredths.
pub open spec fn spec_default_entries() -> Seq<(Seq<u8>, u8)> {
    seq![
        ("5411".spec_bytes(), 15u8),
        ("5812".spec_bytes(), 30u8),
        ("5912".spec_bytes(), 20u8),
        ("5944".spec_bytes(), 45u8),
        ("7801".spec_bytes(), 80u8),
        ("7802".spec_bytes(), 75u8),
        ("7995".spec_bytes(), 85u8),
        ("4511".spec_bytes(), 35u8),
        ("5311".spec_bytes(), 25u8),
        ("5999".spec_bytes(), 50u8),
    ]
}

fn entry(key: &str, risk: u8) -> (r: (Vec<u8>, u8))
    ensures
        r.0@ == key.spec_bytes(),
        r.1 == risk,
{
    let mut k: Vec<u8> = Vec::new();
    push_all(&mut k, key.as_bytes());
    (k, risk)
}

impl Default for McCRiskTable {
    /// The official table.
    fn default() -> (r: Self)
        ensures
            r@ == spec_default_entries(),
    {
        let mut entries: Vec<(Vec<u8>, u8)> = Vec::new();
        entries.push(entry("5411", 15));
        entries.push(entry("5812", 30));
        entries.push(entry("5912", 20));
        entries.push(entry("5944", 45));
        entries.push(entry("7801", 80));
        entries.push(entry("7802", 75));
        entries.push(entry("7995", 85));
        entries.push(entry("4511", 35));
        entries.push(entry("5311", 25));
        entries.push(entry("5999", 50));
        let r = McCRiskTable { entries };
        assert(r@ =~= spec_default_entries());
        r
    }
}

/// The risk, in hundredths, that `mcc_risk.json` gives a merchant category:
/// `5411` 0.15, `5812` 0.30, `5912` 0.20, `5944` 0.45, `7801` 0.80, `7802`
/// 0.75, `7995` 0.85, `4511` 0.35, `5311` 0.25, `5999` 0.50, and 0.5 for any
/// other category.
pub open spec fn official_mcc_risk(mcc: Seq<u8>) -> u8 {
    if mcc == "5411".spec_bytes() {
        15
    } else if mcc == "5812".spec_bytes() {
        30
    } else if mcc == "5912".spec_bytes() {
        20
    } else if mcc == "5944".spec_bytes() {
        45
    } else if mcc == "7801".spec_bytes() {
        80
    } else if mcc == "7802".spec_bytes() {
        75
    } else if mcc == "7995".spec_bytes() {
        85
    } else if mcc == "4511".spec_bytes() {
        35
    } else if mcc == "5311".spec_bytes() {
        25
    } else if mcc == "5999".spec_bytes() {
        50
    } else {
        50
    }
}

/// The default table answers every category with its official risk, and
/// `0.5` for a category it does not list.
pub proof fn default_table_gives_official_risks(mcc: Seq<u8>)
    ensures
        spec_lookup(spec_default_entries(), mcc) == official_mcc_risk(mcc),
{
    reveal_with_fuel(spec_lookup, 11);
    let e = spec_default_entries();
    assert(e.drop_first().drop_first().drop_first().drop_first().drop_first().drop_first()
        .drop_first().drop_first().drop_first().drop_first() =~= Seq::<(Seq<u8>, u8)>::empty());
}

} // verus!
