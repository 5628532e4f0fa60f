//! The supported contracts grouped by kind of commodity.

use vstd::prelude::*;

verus! {

/// Energy futures.
pub const ENERGY: [(&'static str, &'static str); 3] = [
    ("hf_CL", "纽约原油"),
    ("hf_NG", "美国天然气"),
    ("hf_OIL", "布伦特原油"),
];

/// Precious metal futures.
pub const PRECIOUS_METALS: [(&'static str, &'static str); 6] = [
    ("hf_GC", "纽约黄金"),
    ("hf_SI", "纽约白银"),
    ("hf_XAU", "伦敦金（现货黄金）"),
    ("hf_XAG", "伦敦银（现货白银）"),
    ("hf_XPT", "纽约铂金"),
    ("hf_XPD", "纽约钯金"),
];

/// Base metal futures.
pub const BASE_METALS: [(&'static str, &'static str); 7] = [
    ("hf_CAD", "伦铜"),
    ("hf_AHD", "伦铝"),
    ("hf_NID", "伦镍"),
    ("hf_PBD", "伦铅"),
    ("hf_SND", "伦锡"),
    ("hf_ZSD", "伦锌"),
    ("hf_HG", "美铜"),
];

/// Agricultural futures.
pub const AGRICULTURE: [(&'static str, &'static str); 7] = [
    ("hf_S", "美国大豆"),
    ("hf_W", "美国小麦"),
    ("hf_C", "美国玉米"),
    ("hf_SM", "美黄豆粉"),
    ("hf_BO", "美黄豆油"),
    ("hf_RS", "美国原糖"),
    ("hf_CT", "美国棉花"),
];

/// Livestock futures.
pub const LIVESTOCK: [(&'static str, &'static str); 1] = [("hf_LHC", "美瘦猪肉")];

/// Index and other futures.
pub const OTHER: [(&'static str, &'static str); 2] = [("hf_BTC", "比特币期货"), ("hf_EUA", "欧洲碳排放")];

/// Asian commodity futures.
pub const ASIA: [(&'static str, &'static str); 3] = [
    ("hf_FEF", "新加坡铁矿石"),
    ("hf_FCPO", "马棕油"),
    ("hf_RSS3", "日橡胶"),
];

} // verus!
