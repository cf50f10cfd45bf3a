//! Market properties that an expression's variables name, and the case
//! conversions that the bot applies to names.
use vstd::prelude::*;

use crate::text::{same_text, split_char, split_spec, views_of};

verus! {

/// What `str::to_lowercase` returns for a text: its lowercase equivalent
/// under Unicode's `Lowercase` property.
pub uninterp spec fn lowercase(s: Seq<char>) -> Seq<char>;

/// What `str::to_uppercase` returns for a text: its uppercase equivalent
/// under Unicode's `Uppercase` property.
pub uninterp spec fn uppercase(s: Seq<char>) -> Seq<char>;

/// A character of the ASCII range.
pub open spec fn is_ascii_char(c: char) -> bool {
    (c as u32) < 128
}

/// A text of ASCII characters only.
pub open spec fn is_ascii_text(s: Seq<char>) -> bool {
    forall|i: int| 0 <= i < s.len() ==> is_ascii_char(#[trigger] s[i])
}

/// `A` to `Z` mapped to `a` to `z`; any other character kept.
pub open spec fn ascii_lower_char(c: char) -> char {
    if 'A' <= c && c <= 'Z' {
        ((c as u32) + 32) as char
    } else {
        c
    }
}

/// `a` to `z` mapped to `A` to `Z`; any other character kept.
pub open spec fn ascii_upper_char(c: char) -> char {
    if 'a' <= c && c <= 'z' {
        ((c as u32) - 32) as char
    } else {
        c
    }
}

/// A text with its ASCII letters in lowercase.
pub open spec fn ascii_lower(s: Seq<char>) -> Seq<char> {
    s.map_values(|c: char| ascii_lower_char(c))
}

/// A text with its ASCII letters in uppercase.
pub open spec fn ascii_upper(s: Seq<char>) -> Seq<char> {
    s.map_values(|c: char| ascii_upper_char(c))
}

/// What `str::to_lowercase` gives: the ASCII mapping on an ASCII text,
/// the Unicode one (named `lowercase`) otherwise.
pub open spec fn lower_text(s: Seq<char>) -> Seq<char> {
    if is_ascii_text(s) {
        ascii_lower(s)
    } else {
        lowercase(s)
    }
}

/// What `str::to_uppercase` gives: the ASCII mapping on an ASCII text,
/// the Unicode one (named `uppercase`) otherwise.
pub open spec fn upper_text(s: Seq<char>) -> Seq<char> {
    if is_ascii_text(s) {
        ascii_upper(s)
    } else {
        uppercase(s)
    }
}

/// Calls `str::to_lowercase`. Its contract claims that the result is a
/// function of the text (named `lowercase`), and that on an ASCII text it
/// maps `A`..`Z` to `a`..`z` and keeps every other character, as Unicode's
/// case mapping does on ASCII. The Unicode case tables that decide other
/// texts are left unstated.
#[verifier::external_body]
pub(crate) fn to_lowercase(s: &str) -> (r: String)
    ensures
        r@ == lowercase(s@),
        is_ascii_text(s@) ==> r@ == ascii_lower(s@),
{
    s.to_lowercase()
}

/// Calls `str::to_uppercase`. Its contract claims that the result is a
/// function of the text (named `uppercase`), and that on an ASCII text it
/// maps `a`..`z` to `A`..`Z` and keeps every other character, as Unicode's
/// case mapping does on ASCII. The Unicode case tables that decide other
/// texts are left unstated.
#[verifier::external_body]
pub(crate) fn to_uppercase(s: &str) -> (r: String)
    ensures
        r@ == uppercase(s@),
        is_ascii_text(s@) ==> r@ == ascii_upper(s@),
{
    s.to_uppercase()
}

/// Upper-casing an ASCII character after lower-casing it, or twice, is
/// upper-casing it once; both keep it ASCII.
pub proof fn lemma_ascii_case_char(c: char)
    requires
        is_ascii_char(c),
    ensures
        ascii_upper_char(ascii_lower_char(c)) == ascii_upper_char(c),
        ascii_upper_char(ascii_upper_char(c)) == ascii_upper_char(c),
        is_ascii_char(ascii_lower_char(c)),
        is_ascii_char(ascii_upper_char(c)),
{
    assert('A' as u32 == 65 && 'Z' as u32 == 90 && 'a' as u32 == 97 && 'z' as u32 == 122);
}

/// On ASCII text, upper-casing after lower-casing, or twice, is the same as
/// upper-casing once.
pub proof fn lemma_ascii_case_text(s: Seq<char>)
    requires
        is_ascii_text(s),
    ensures
        is_ascii_text(ascii_lower(s)),
        is_ascii_text(ascii_upper(s)),
        upper_text(ascii_lower(s)) == ascii_upper(s),
        upper_text(ascii_upper(s)) == ascii_upper(s),
{
    assert forall|i: int| 0 <= i < s.len() implies is_ascii_char(#[trigger] ascii_lower(s)[i])
        && is_ascii_char(ascii_upper(s)[i]) by {
        lemma_ascii_case_char(s[i]);
    }
    assert(is_ascii_text(ascii_upper(s)));
    assert forall|i: int| 0 <= i < s.len() implies #[trigger] ascii_upper(ascii_lower(s))[i]
        == ascii_upper(s)[i] && ascii_upper(ascii_upper(s))[i] == ascii_upper(s)[i] by {
        lemma_ascii_case_char(s[i]);
    }
    assert(ascii_upper(ascii_lower(s)) =~= ascii_upper(s));
    assert(ascii_upper(ascii_upper(s)) =~= ascii_upper(s));
}

/// The figures that a market reports.
#[derive(Debug, Clone, Copy, PartialEq, Eq, Structural)]
pub enum MarketPropertyType {
    Last,
    LowestAsk,
    HighestBid,
    PercentChange,
    BaseVolume,
    QuoteVolume,
    IsFrozen,
    High24hr,
    Low24hr,
}

/// The property that a lowercase name selects; any name not listed selects
/// the last price.
pub open spec fn property_type_of(name: Seq<char>) -> MarketPropertyType {
    if name == seq!['l', 'o', 'w', 'e', 's', 't', '_', 'a', 's', 'k'] {
        MarketPropertyType::LowestAsk
    } else if name == seq!['h', 'i', 'g', 'h', 'e', 's', 't', '_', 'b', 'i', 'd'] {
        MarketPropertyType::HighestBid
    } else if name == seq!['p', 'e', 'r', 'c', 'e', 'n', 't', '_', 'c', 'h', 'a', 'n', 'g', 'e'] {
        MarketPropertyType::PercentChange
    } else if name == seq!['b', 'a', 's', 'e', '_', 'v', 'o', 'l', 'u', 'm', 'e'] {
        MarketPropertyType::BaseVolume
    } else if name == seq!['q', 'u', 'o', 't', 'e', '_', 'v', 'o', 'l', 'u', 'm', 'e'] {
        MarketPropertyType::QuoteVolume
    } else if name == seq!['i', 's', '_', 'f', 'r', 'o', 'z', 'e', 'n'] {
        MarketPropertyType::IsFrozen
    } else if name == seq!['h', 'i', 'g', 'h', '2', '4', 'h', 'r'] {
        MarketPropertyType::High24hr
    } else if name == seq!['l', 'o', 'w', '2', '4', 'h', 'r'] {
        MarketPropertyType::Low24hr
    } else {
        MarketPropertyType::Last
    }
}

/// Each documented lowercase name selects its own property, and exactly the
/// names outside that list select the last price.
pub proof fn law_property_names(name: Seq<char>)
    ensures
        property_type_of(name) == MarketPropertyType::LowestAsk <==> name == seq![
            'l', 'o', 'w', 'e', 's', 't', '_', 'a', 's', 'k'],
        property_type_of(name) == MarketPropertyType::HighestBid <==> name == seq![
            'h', 'i', 'g', 'h', 'e', 's', 't', '_', 'b', 'i', 'd'],
        property_type_of(name) == MarketPropertyType::PercentChange <==> name == seq![
            'p', 'e', 'r', 'c', 'e', 'n', 't', '_', 'c', 'h', 'a', 'n', 'g', 'e'],
        property_type_of(name) == MarketPropertyType::BaseVolume <==> name == seq![
            'b', 'a', 's', 'e', '_', 'v', 'o', 'l', 'u', 'm', 'e'],
        property_type_of(name) == MarketPropertyType::QuoteVolume <==> name == seq![
            'q', 'u', 'o', 't', 'e', '_', 'v', 'o', 'l', 'u', 'm', 'e'],
        property_type_of(name) == MarketPropertyType::IsFrozen <==> name == seq![
            'i', 's', '_', 'f', 'r', 'o', 'z', 'e', 'n'],
        property_type_of(name) == MarketPropertyType::High24hr <==> name == seq![
            'h', 'i', 'g', 'h', '2', '4', 'h', 'r'],
        property_type_of(name) == MarketPropertyType::Low24hr <==> name == seq![
            'l', 'o', 'w', '2', '4', 'h', 'r'],
        property_type_of(seq!['l', 'a', 's', 't']) == MarketPropertyType::Last,
{
    let last = seq!['l', 'a', 's', 't'];
    assert(last.len() == 4);
}

/// Lower-casing after upper-casing an ASCII character is lower-casing it.
proof fn lemma_ascii_lower_upper_char(c: char)
    requires
        is_ascii_char(c),
    ensures
        ascii_lower_char(ascii_upper_char(c)) == ascii_lower_char(c),
{
    assert('A' as u32 == 65 && 'Z' as u32 == 90 && 'a' as u32 == 97 && 'z' as u32 == 122);
}

/// The property that an ASCII name selects does not depend on its case:
/// `LOW24HR`, `Low24hr` and `low24hr` select the same property.
pub proof fn law_property_name_case(p: Seq<char>)
    requires
        is_ascii_text(p),
    ensures
        property_type_of(lower_text(ascii_upper(p))) == property_type_of(lower_text(p)),
        lower_text(ascii_upper(p)) == ascii_lower(p),
{
    lemma_ascii_case_text(p);
    assert forall|i: int| 0 <= i < p.len() implies #[trigger] ascii_lower(ascii_upper(p))[i]
        == ascii_lower(p)[i] by {
        lemma_ascii_lower_upper_char(p[i]);
    }
    assert(ascii_lower(ascii_upper(p)) =~= ascii_lower(p));
}

impl MarketPropertyType {
    /// The property that an already lowercase name selects.
    pub fn from_lowercase_name(name: &str) -> (r: MarketPropertyType)
        ensures
            r == property_type_of(name@),
    {
        proof {
            reveal_strlit("lowest_ask");
            assert("lowest_ask"@ =~= seq!['l', 'o', 'w', 'e', 's', 't', '_', 'a', 's', 'k']);
            reveal_strlit("highest_bid");
            assert("highest_bid"@ =~= seq!['h', 'i', 'g', 'h', 'e', 's', 't', '_', 'b', 'i', 'd']);
            reveal_strlit("percent_change");
            assert("percent_change"@ =~= seq!['p', 'e', 'r', 'c', 'e', 'n', 't', '_', 'c', 'h', 'a', 'n', 'g', 'e']);
            reveal_strlit("base_volume");
            assert("base_volume"@ =~= seq!['b', 'a', 's', 'e', '_', 'v', 'o', 'l', 'u', 'm', 'e']);
            reveal_strlit("quote_volume");
            assert("quote_volume"@ =~= seq!['q', 'u', 'o', 't', 'e', '_', 'v', 'o', 'l', 'u', 'm', 'e']);
            reveal_strlit("is_frozen");
            assert("is_frozen"@ =~= seq!['i', 's', '_', 'f', 'r', 'o', 'z', 'e', 'n']);
            reveal_strlit("high24hr");
            assert("high24hr"@ =~= seq!['h', 'i', 'g', 'h', '2', '4', 'h', 'r']);
            reveal_strlit("low24hr");
            assert("low24hr"@ =~= seq!['l', 'o', 'w', '2', '4', 'h', 'r']);
        }
        if same_text(name, "lowest_ask") {
            MarketPropertyType::LowestAsk
        } else if same_text(name, "highest_bid") {
            MarketPropertyType::HighestBid
        } else if same_text(name, "percent_change") {
            MarketPropertyType::PercentChange
        } else if same_text(name, "base_volume") {
            MarketPropertyType::BaseVolume
        } else if same_text(name, "quote_volume") {
            MarketPropertyType::QuoteVolume
        } else if same_text(name, "is_frozen") {
            MarketPropertyType::IsFrozen
        } else if same_text(name, "high24hr") {
            MarketPropertyType::High24hr
        } else if same_text(name, "low24hr") {
            MarketPropertyType::Low24hr
        } else {
            MarketPropertyType::Last
        }
    }
}

/// A variable of an expression bound to a property of a coin.
#[derive(Debug, Clone)]
pub struct MarketProperty {
    pub property_type: MarketPropertyType,
    pub var_string: String,
    pub coin: String,
}

impl MarketProperty {
    /// The variable `v` for property `p` (in any case) of coin `c`.
    pub fn new(v: String, c: String, p: String) -> (r: MarketProperty)
        ensures
            r.property_type == property_type_of(lower_text(p@)),
            r.var_string@ == v@,
            r.coin@ == c@,
    {
        let lower = to_lowercase(p.as_str());
        let p_type = MarketPropertyType::from_lowercase_name(lower.as_str());
        MarketProperty { property_type: p_type, var_string: v, coin: c }
    }

    /// The name of the variable.
    pub fn var(&self) -> (r: String)
        ensures
            r@ == self.var_string@,
    {
        self.var_string.clone()
    }
}

/// The market and coin that a ticker key such as "BTC_ETH" names: the
/// pieces before and after the first `_`. `None` when there is no `_`.
pub fn split_currency_pair(key: &str) -> (r: Option<(String, String)>)
    ensures
        ({
            let parts = split_spec(key@, '_');
            match r {
                Some((market, coin)) => parts.len() >= 2 && market@ == parts[0] && coin@
                    == parts[1],
                None => parts.len() < 2,
            }
        }),
{
    let parts = split_char(key, '_');
    if parts.len() >= 2 {
        assert(views_of(parts@)[0] == parts@[0]@);
        assert(views_of(parts@)[1] == parts@[1]@);
        Some((parts[0].clone(), parts[1].clone()))
    } else {
        None
    }
}

} // verus!
