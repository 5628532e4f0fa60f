//! Codes and Chinese names of the international futures Sina quotes.

pub mod categories;

use vstd::prelude::*;

verus! {

/// Every supported international futures contract, as `(code, name)`.
pub const ALL_SYMBOLS: [(&'static str, &'static str); 29] = [
    ("hf_CL", "纽约原油"),
    ("hf_NG", "美国天然气"),
    ("hf_OIL", "布伦特原油"),
    ("hf_GC", "纽约黄金"),
    ("hf_SI", "纽约白银"),
    ("hf_XAU", "伦敦金（现货黄金）"),
    ("hf_XAG", "伦敦银（现货白银）"),
    ("hf_XPT", "纽约铂金"),
    ("hf_XPD", "纽约钯金"),
    ("hf_CAD", "伦铜"),
    ("hf_AHD", "伦铝"),
    ("hf_NID", "伦镍"),
    ("hf_PBD", "伦铅"),
    ("hf_SND", "伦锡"),
    ("hf_ZSD", "伦锌"),
    ("hf_HG", "美铜"),
    ("hf_S", "美国大豆"),
    ("hf_W", "美国小麦"),
    ("hf_C", "美国玉米"),
    ("hf_SM", "美黄豆粉"),
    ("hf_BO", "美黄豆油"),
    ("hf_RS", "美国原糖"),
    ("hf_CT", "美国棉花"),
    ("hf_LHC", "美瘦猪肉"),
    ("hf_BTC", "比特币期货"),
    ("hf_EUA", "欧洲碳排放"),
    ("hf_FEF", "新加坡铁矿石"),
    ("hf_FCPO", "马棕油"),
    ("hf_RSS3", "日橡胶"),
];

/// The codes of all supported contracts, in table order.
pub fn all_codes() -> (codes: Vec<&'static str>)
    ensures
        codes@.len() == ALL_SYMBOLS@.len(),
        forall|i: int| 0 <= i < codes@.len() ==> codes@[i] == ALL_SYMBOLS@[i].0,
{
    let table: &[(&'static str, &'static str)] = &ALL_SYMBOLS;
    let mut codes: Vec<&'static str> = Vec::new();
    let mut i: usize = 0;
    while i < table.len()
        invariant
            table@ == ALL_SYMBOLS@,
            i <= table@.len(),
            codes@.len() == i,
            forall|k: int| 0 <= k < i ==> codes@[k] == table@[k].0,
        decreases table@.len() - i,
    {
        codes.push(table[i].0);
        i = i + 1;
    }
    codes
}

/// The whole `(code, name)` table.
pub fn all() -> (table: &'static [(&'static str, &'static str)])
    ensures
        table@ == ALL_SYMBOLS@,
{
    &ALL_SYMBOLS
}

/// The category tables, taken in order, are exactly the full table: every
/// contract belongs to one category and the groups keep the table order.
pub proof fn lemma_categories_partition_all()
    ensures
        categories::ENERGY@ + categories::PRECIOUS_METALS@ + categories::BASE_METALS@
            + categories::AGRICULTURE@ + categories::LIVESTOCK@ + categories::OTHER@
            + categories::ASIA@ == ALL_SYMBOLS@,
{
    assert(categories::ENERGY@ + categories::PRECIOUS_METALS@ + categories::BASE_METALS@
        + categories::AGRICULTURE@ + categories::LIVESTOCK@ + categories::OTHER@
        + categories::ASIA@ =~= ALL_SYMBOLS@);
}

} // verus!
