use dipper::command::{parse_command, Command};
use dipper::database::{DatabaseConnInfo, DatabaseType};
use dipper::expression::{
    coin_variables, conversions, expression_parser, graph_coins, matching_pairs,
    split_conversion_targets, valid_markets, CoinMarkets,
};
use dipper::market::{split_currency_pair, MarketProperty, MarketPropertyType};
use dipper::numbers::{
    parse_i64, parse_usize, relative_window, time_to_seconds, try_time_to_seconds,
};
use dipper::text::split_char;

fn s(x: &str) -> String {
    String::from(x)
}

fn strings(xs: &[&str]) -> Vec<String> {
    xs.iter().map(|x| s(x)).collect()
}

#[test]
fn split_char_matches_std_split() {
    for (text, sep) in [("a,b,,c", ','), ("", ','), (",", ','), ("abc", '.'), ("x y z", ' ')] {
        let expected: Vec<String> = text.split(sep).map(|p| s(p)).collect();
        assert_eq!(split_char(text, sep), expected);
    }
}

#[test]
fn integers_parse_as_std_does() {
    assert_eq!(parse_i64("42"), Some(42));
    assert_eq!(parse_i64("+42"), Some(42));
    assert_eq!(parse_i64("-42"), Some(-42));
    assert_eq!(parse_i64("-9223372036854775808"), Some(i64::MIN));
    assert_eq!(parse_i64("9223372036854775807"), Some(i64::MAX));
    assert_eq!(parse_i64("9223372036854775808"), None);
    assert_eq!(parse_i64(""), None);
    assert_eq!(parse_i64("-"), None);
    assert_eq!(parse_i64("1a"), None);
    assert_eq!(parse_i64("99999999999999999999999"), None);
    for t in ["0", "-0", "+7", "12 ", "--1", "007", "18446744073709551616"] {
        assert_eq!(parse_i64(t), t.parse::<i64>().ok(), "{}", t);
        assert_eq!(parse_usize(t), t.parse::<usize>().ok(), "{}", t);
    }
    assert_eq!(parse_usize("3"), Some(3));
    assert_eq!(parse_usize("-3"), None);
}

#[test]
fn durations_in_seconds() {
    assert_eq!(time_to_seconds(s("10s")), 10);
    assert_eq!(time_to_seconds(s("15m")), 900);
    assert_eq!(time_to_seconds(s("2h")), 7200);
    assert_eq!(time_to_seconds(s("1d")), 86400);
    assert_eq!(time_to_seconds(s("1y")), 31536000);
    assert_eq!(time_to_seconds(s("-2m")), -120);
    // An unknown unit counts for nothing.
    assert_eq!(time_to_seconds(s("10x")), 0);
    assert_eq!(try_time_to_seconds("m"), None);
    assert_eq!(try_time_to_seconds(""), None);
    assert_eq!(try_time_to_seconds("abcm"), None);
    assert_eq!(try_time_to_seconds("9223372036854775807m"), None);
}

#[test]
fn relative_window_reaches_back() {
    assert_eq!(relative_window(1000, "10m"), Some((400, 1000)));
    assert_eq!(relative_window(1000, "bad"), None);
    assert_eq!(relative_window(i64::MIN, "1s"), None);
}

#[test]
fn commands_from_messages() {
    match parse_command("$btc+1 eth") {
        Command::Evaluate(e) => assert_eq!(e, "btc+1 eth"),
        c => panic!("{:?}", c),
    }
    assert!(matches!(parse_command("!help"), Command::Help));
    assert!(matches!(parse_command("!h"), Command::Help));
    match parse_command("!watch btc 5") {
        Command::Watch { expression, threshold } => {
            assert_eq!(expression, "btc");
            assert_eq!(threshold, "5");
        }
        c => panic!("{:?}", c),
    }
    assert!(matches!(parse_command("!w btc"), Command::Invalid));
    assert!(matches!(parse_command("!ls"), Command::List));
    assert!(matches!(parse_command("!list"), Command::List));
    assert!(matches!(parse_command("!rm 2"), Command::Remove(2)));
    assert!(matches!(parse_command("!r x"), Command::Invalid));
    assert!(matches!(parse_command("!remove"), Command::Invalid));
    match parse_command("!g 1d btc eth*2") {
        Command::Graph { range, expressions } => {
            assert_eq!(range, "1d");
            assert_eq!(expressions, strings(&["btc", "eth*2"]));
        }
        c => panic!("{:?}", c),
    }
    assert!(matches!(parse_command("!g"), Command::Invalid));
    assert!(matches!(parse_command("!unknown"), Command::Ignore));
    assert!(matches!(parse_command("hello"), Command::Ignore));
    assert!(matches!(parse_command(""), Command::Ignore));
    assert!(matches!(parse_command("! help"), Command::Ignore));
}

#[test]
fn market_property_names() {
    let m = MarketProperty::new(s("BTC.LOWEST_ASK"), s("BTC"), s("LOWEST_ASK"));
    assert_eq!(m.property_type, MarketPropertyType::LowestAsk);
    assert_eq!(m.var(), "BTC.LOWEST_ASK");
    assert_eq!(m.coin, "BTC");
    let h = MarketProperty::new(s("x"), s("ETH"), s("High24HR"));
    assert_eq!(h.property_type, MarketPropertyType::High24hr);
    let f = MarketProperty::new(s("x"), s("ETH"), s("is_frozen"));
    assert_eq!(f.property_type, MarketPropertyType::IsFrozen);
    let d = MarketProperty::new(s("x"), s("ETH"), s("volume"));
    assert_eq!(d.property_type, MarketPropertyType::Last);
    assert_eq!(
        MarketPropertyType::from_lowercase_name("quote_volume"),
        MarketPropertyType::QuoteVolume
    );
    assert_eq!(
        MarketPropertyType::from_lowercase_name("QUOTE_VOLUME"),
        MarketPropertyType::Last
    );
}

#[test]
fn currency_pairs() {
    assert_eq!(split_currency_pair("BTC_ETH"), Some((s("BTC"), s("ETH"))));
    assert_eq!(split_currency_pair("USDT_BTC_X"), Some((s("USDT"), s("BTC"))));
    assert_eq!(split_currency_pair("BTCETH"), None);
}

#[test]
fn conversion_targets() {
    assert_eq!(
        split_conversion_targets("BTC.LAST@USDT,ETH"),
        (s("BTC.LAST"), strings(&["USDT", "ETH"]))
    );
    assert_eq!(split_conversion_targets("BTC"), (s("BTC"), vec![]));
    assert_eq!(split_conversion_targets("A@B@C"), (s("A"), vec![]));
    assert_eq!(split_conversion_targets("A@"), (s("A"), strings(&[""])));
}

#[test]
fn variables_grouped_by_coin() {
    let groups = coin_variables(&strings(&["BTC", "BTC.LOWEST_ASK", "ETH.A.B", "XMR.HIGH24HR"]));
    assert_eq!(groups.len(), 3);
    let btc = groups.iter().find(|g| g.coin == "BTC").unwrap();
    let kinds: Vec<MarketPropertyType> = btc.properties.iter().map(|p| p.property_type).collect();
    assert_eq!(kinds, vec![MarketPropertyType::Last, MarketPropertyType::LowestAsk]);
    assert_eq!(btc.properties[1].var_string, "BTC.LOWEST_ASK");
    let eth = groups.iter().find(|g| g.coin == "ETH").unwrap();
    assert!(eth.properties.is_empty());
    let xmr = groups.iter().find(|g| g.coin == "XMR").unwrap();
    assert_eq!(xmr.properties[0].property_type, MarketPropertyType::High24hr);
}

fn exchange() -> Vec<CoinMarkets> {
    vec![
        CoinMarkets { coin: s("ETH"), markets: strings(&["BTC", "USDT", "XMR"]) },
        CoinMarkets { coin: s("LTC"), markets: strings(&["BTC", "USDT"]) },
        CoinMarkets { coin: s("BTC"), markets: strings(&["USDT"]) },
        CoinMarkets { coin: s("ZEC"), markets: strings(&["XMR"]) },
    ]
}

#[test]
fn markets_shared_by_variable_coins() {
    let ex = exchange();
    let groups = coin_variables(&strings(&["ETH", "LTC.LAST"]));
    let mut ms = valid_markets(&groups, &ex).unwrap();
    ms.sort();
    assert_eq!(ms, strings(&["BTC", "USDT"]));
    let only_eth = coin_variables(&strings(&["ETH", "DOGE"]));
    let mut ms2 = valid_markets(&only_eth, &ex).unwrap();
    ms2.sort();
    assert_eq!(ms2, strings(&["BTC", "USDT", "XMR"]));
    let disjoint = coin_variables(&strings(&["BTC", "ZEC"]));
    assert_eq!(valid_markets(&disjoint, &ex), Some(vec![]));
    let none = coin_variables(&strings(&["DOGE"]));
    assert_eq!(valid_markets(&none, &ex), None);
}

#[test]
fn conversions_through_markets() {
    let ex = exchange();
    let ts = conversions("btc", &strings(&["usdt", "eur"]), &ex);
    assert_eq!(ts.len(), 1);
    assert_eq!(ts[0].label, "BTC->USDT");
    assert_eq!(ts[0].coin, "BTC");
    assert_eq!(ts[0].market, "USDT");
    assert!(conversions("DOGE", &strings(&["USDT"]), &ex).is_empty());
}

#[test]
fn watch_comparison_pairs() {
    let cur = strings(&["BTC", "USDT", "BTC"]);
    let old = strings(&["USDT", "BTC"]);
    assert_eq!(matching_pairs(&cur, &old), vec![(0, 1), (1, 0), (2, 1)]);
    assert!(matching_pairs(&cur, &vec![]).is_empty());
}

#[test]
fn database_connection_info() {
    let info = DatabaseConnInfo::new(s("localhost"), 27017);
    assert_eq!(info.url, "localhost");
    assert_eq!(info.port, 27017);
    assert_eq!(DatabaseType::Mongodb, DatabaseType::Mongodb);
}

#[test]
fn split_then_join_gives_the_text_back() {
    for (text, sep) in [("a,b,,c", ','), ("", ','), (",,", ','), ("x.y", '.')] {
        let pieces = split_char(text, sep);
        assert_eq!(pieces.join(&sep.to_string()), text);
        assert!(pieces.iter().all(|p| !p.contains(sep)));
    }
}

#[test]
fn expression_read_in_uppercase() {
    let p = expression_parser("btc.last+eth*2").unwrap();
    assert_eq!(p.vars(), strings(&["BTC.LAST", "ETH"]));
}

#[test]
fn expression_case_does_not_matter() {
    let ex = exchange();
    let raw = "Btc.Lowest_Ask*eth@Usdt,xmr";
    let (e1, t1) = split_conversion_targets(&raw.to_lowercase());
    let (e2, t2) = split_conversion_targets(&raw.to_uppercase());
    assert_eq!(
        expression_parser(&e1).unwrap().vars(),
        expression_parser(&e2).unwrap().vars()
    );
    for m in ["eth", "BTC", "ltc"] {
        let c1: Vec<String> = conversions(m, &t1, &ex).into_iter().map(|t| t.label).collect();
        let c2: Vec<String> = conversions(m, &t2, &ex).into_iter().map(|t| t.label).collect();
        assert_eq!(c1, c2);
    }
    let labels: Vec<String> = conversions("eth", &t1, &ex).into_iter().map(|t| t.label).collect();
    assert_eq!(labels, strings(&["ETH->USDT", "ETH->XMR"]));
}

#[test]
fn plain_variable_binds_last_price() {
    let groups = coin_variables(&strings(&["DOGE"]));
    assert_eq!(groups.len(), 1);
    assert_eq!(groups[0].properties[0].property_type, MarketPropertyType::Last);
    assert_eq!(MarketProperty::new(s("X"), s("X"), s("HIGHEST_BID")).property_type, MarketPropertyType::HighestBid);
}

#[test]
fn durations_add_up() {
    for u in ["s", "m", "h", "d", "y"] {
        let (a, b) = (17i64, -5i64);
        let whole = time_to_seconds(format!("{}{}", a + b, u));
        let parts = time_to_seconds(format!("{}{}", a, u)) + time_to_seconds(format!("{}{}", b, u));
        assert_eq!(whole, parts);
    }
    assert_eq!(time_to_seconds(format!("{}{}", 3, "y")), 3 * 31536000);
    assert_eq!(time_to_seconds(format!("{}{}", -2, "h")), -7200);
}

#[test]
fn coins_of_a_graphed_expression() {
    let mut coins = graph_coins(&strings(&["BTC.LAST@USDT", "ETH", "BTC", "XMR.HIGH24HR"]));
    coins.sort();
    assert_eq!(coins, strings(&["BTC", "ETH", "USDT", "XMR"]));
    assert!(graph_coins(&vec![]).is_empty());
}
