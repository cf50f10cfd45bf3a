//! The decisions behind evaluating an expression against a market snapshot:
//! which coins and properties its variables name, in which markets it can
//! be evaluated, and through which markets its results are converted.
use vstd::prelude::*;

use crate::market::{
    ascii_lower, ascii_lower_char, ascii_upper_char, is_ascii_char, ascii_upper, is_ascii_text, lemma_ascii_case_text, lower_text, property_type_of,
    to_uppercase, upper_text, MarketProperty, MarketPropertyType,
};
use crate::lexer::lex_spec;
use crate::parser::{variables_of, Error, Parser};
use crate::postfix::postfix_of;
use crate::text::{
    lemma_split_concat, lemma_split_map, lemma_split_no_sep, lemma_split_nonempty,
    lemma_split_pieces_keep, map_pieces, split_char,
    split_spec, views_of,
};

verus! {

broadcast use vstd::seq_lib::lemma_seq_contains_after_push;

/// A raw expression `EXP@T1,T2,...` taken apart: the expression, and the
/// markets to convert its results into. Without exactly one `@` there are
/// no targets.
pub open spec fn conversion_targets_spec(s: Seq<char>) -> (Seq<char>, Seq<Seq<char>>) {
    let parts = split_spec(s, '@');
    (
        parts[0],
        if parts.len() == 2 {
            split_spec(parts[1], ',')
        } else {
            Seq::<Seq<char>>::empty()
        },
    )
}

/// Splits a raw expression `EXP@T1,T2,...` into the expression and the
/// markets to convert its results into.
pub fn split_conversion_targets(exp_raw: &str) -> (r: (String, Vec<String>))
    ensures
        r.0@ == conversion_targets_spec(exp_raw@).0,
        views_of(r.1@) == conversion_targets_spec(exp_raw@).1,
{
    let parts = split_char(exp_raw, '@');
    proof {
        crate::text::lemma_split_nonempty(exp_raw@, '@');
    }
    assert(views_of(parts@)[0] == parts@[0]@);
    let exp = parts[0].clone();
    if parts.len() == 2 {
        assert(views_of(parts@)[1] == parts@[1]@);
        let targets = split_char(parts[1].as_str(), ',');
        (exp, targets)
    } else {
        let targets: Vec<String> = Vec::new();
        assert(views_of(targets@) =~= Seq::<Seq<char>>::empty());
        (exp, targets)
    }
}

/// The parser of an expression, which reads it in uppercase.
pub fn expression_parser(exp: &str) -> (r: Result<Parser, Error>)
    ensures
        r matches Ok(p) && p@.infix == lex_spec(upper_text(exp@)) && p@.postfix == postfix_of(
            lex_spec(upper_text(exp@)),
        ) && p@.vars == variables_of(lex_spec(upper_text(exp@))),
{
    Parser::new(to_uppercase(exp))
}

/// The coin that a variable `COIN` or `COIN.PROPERTY` names.
pub open spec fn var_coin(v: Seq<char>) -> Seq<char> {
    split_spec(v, '.')[0]
}

/// The property that a variable names: the last price for `COIN`, the
/// given one for `COIN.PROPERTY`, none when there are more dots.
pub open spec fn var_property(v: Seq<char>) -> Option<Seq<char>> {
    let parts = split_spec(v, '.');
    if parts.len() == 1 {
        Some(seq!['l', 'a', 's', 't'])
    } else if parts.len() == 2 {
        Some(parts[1])
    } else {
        None
    }
}

/// A market property seen as (variable, coin, property).
pub open spec fn property_view(m: MarketProperty) -> (Seq<char>, Seq<char>, MarketPropertyType) {
    (m.var_string@, m.coin@, m.property_type)
}

/// The properties that the variables `vars` bind for coin `c`, in order.
pub open spec fn properties_for(vars: Seq<Seq<char>>, c: Seq<char>) -> Seq<
    (Seq<char>, Seq<char>, MarketPropertyType),
>
    decreases vars.len(),
{
    if vars.len() == 0 {
        Seq::empty()
    } else {
        let rest = properties_for(vars.drop_last(), c);
        let v = vars.last();
        if var_coin(v) == c && var_property(v) is Some {
            rest.push((v, c, property_type_of(lower_text(var_property(v)->0))))
        } else {
            rest
        }
    }
}

/// A variable with no dot, such as `BTC`, binds its coin's last price.
pub proof fn law_plain_variable_binds_last(v: Seq<char>)
    requires
        split_spec(v, '.').len() == 1,
    ensures
        properties_for(seq![v], var_coin(v)) == seq![(v, var_coin(v), MarketPropertyType::Last)],
{
    let last = seq!['l', 'a', 's', 't'];
    assert(var_property(v) == Some(last));
    assert(is_ascii_text(last)) by {
        assert(last[0] == 'l' && last[1] == 'a' && last[2] == 's' && last[3] == 't');
        assert('l' as u32 == 108 && 'a' as u32 == 97 && 's' as u32 == 115 && 't' as u32 == 116);
    }
    assert(ascii_lower(last) =~= last) by {
        assert('A' as u32 == 65 && 'Z' as u32 == 90);
        assert('l' as u32 == 108 && 'a' as u32 == 97 && 's' as u32 == 115 && 't' as u32 == 116);
    }
    assert(lower_text(last) == last);
    assert(property_type_of(last) == MarketPropertyType::Last);
    let vs = seq![v];
    assert(vs.drop_last() =~= Seq::<Seq<char>>::empty());
    assert(properties_for(vs.drop_last(), var_coin(v)) == Seq::<
        (Seq<char>, Seq<char>, MarketPropertyType),
    >::empty());
    assert(vs.last() == v);
    assert(properties_for(seq![v], var_coin(v)) =~= seq![(v, var_coin(v), MarketPropertyType::Last)]);
}

/// The variables of an expression that name one coin.
#[derive(Debug, Clone)]
pub struct CoinVariables {
    pub coin: String,
    pub properties: Vec<MarketProperty>,
}

pub open spec fn property_views(ps: Seq<MarketProperty>) -> Seq<
    (Seq<char>, Seq<char>, MarketPropertyType),
> {
    ps.map_values(|m: MarketProperty| property_view(m))
}

pub open spec fn coins_of(groups: Seq<CoinVariables>) -> Seq<Seq<char>> {
    groups.map_values(|g: CoinVariables| g.coin@)
}

/// The coin of a variable.
fn coin_of_var(v: &String) -> (c: String)
    ensures
        c@ == var_coin(v@),
{
    let parts = split_char(v.as_str(), '.');
    proof {
        crate::text::lemma_split_nonempty(v@, '.');
    }
    assert(views_of(parts@)[0] == parts@[0]@);
    parts[0].clone()
}

/// Whether `c` is among `cs`.
fn contains_text(cs: &Vec<String>, c: &String) -> (r: bool)
    ensures
        r == views_of(cs@).contains(c@),
{
    let n = cs.len();
    let mut i: usize = 0;
    while i < n
        invariant
            n == cs@.len(),
            i <= n,
            forall|k: int| 0 <= k < i ==> cs@[k]@ != c@,
        decreases n - i,
    {
        if cs[i] == *c {
            assert(views_of(cs@)[i as int] == c@);
            return true;
        }
        i = i + 1;
    }
    assert forall|k: int| 0 <= k < views_of(cs@).len() implies views_of(cs@)[k] != c@ by {
        assert(views_of(cs@)[k] == cs@[k]@);
    }
    false
}

/// The property that variable `v` of coin `c` binds, if any.
fn property_of_var(v: &String, c: &String) -> (r: Option<MarketProperty>)
    requires
        c@ == var_coin(v@),
    ensures
        match r {
            Some(m) => var_property(v@) is Some && property_view(m) == (
                v@,
                c@,
                property_type_of(lower_text(var_property(v@)->0)),
            ),
            None => var_property(v@) is None,
        },
{
    let parts = split_char(v.as_str(), '.');
    if parts.len() == 1 {
        proof {
            reveal_strlit("last");
            assert("last"@ =~= seq!['l', 'a', 's', 't']);
        }
        Some(MarketProperty::new(v.clone(), c.clone(), String::from_str("last")))
    } else if parts.len() == 2 {
        assert(views_of(parts@)[1] == parts@[1]@);
        Some(MarketProperty::new(v.clone(), c.clone(), parts[1].clone()))
    } else {
        None
    }
}

/// The coins that the variables name, one per variable.
pub open spec fn var_coins(vars: Seq<Seq<char>>) -> Seq<Seq<char>> {
    vars.map_values(|v: Seq<char>| var_coin(v))
}

/// Groups the variables of an expression by the coin they name. Each coin
/// that a variable names appears once, and no other; its properties are
/// those its variables name, in the order of the variables.
pub fn coin_variables(vars: &Vec<String>) -> (r: Vec<CoinVariables>)
    ensures
        forall|i: int, j: int|
            0 <= i < r@.len() && 0 <= j < r@.len() && i != j ==> r@[i].coin@ != r@[j].coin@,
        forall|c: Seq<char>|
            #![trigger coins_of(r@).contains(c)]
            coins_of(r@).contains(c) <==> var_coins(views_of(vars@)).contains(c),
        forall|j: int|
            0 <= j < r@.len() ==> property_views(#[trigger] r@[j].properties@) == properties_for(
                views_of(vars@),
                r@[j].coin@,
            ),
{
    let n = vars.len();
    let ghost all = var_coins(views_of(vars@));
    // The coins, in order of first appearance.
    let mut coins: Vec<String> = Vec::new();
    let mut i: usize = 0;
    while i < n
        invariant
            n == vars@.len(),
            i <= n,
            all == var_coins(views_of(vars@)),
            forall|a: int, b: int|
                0 <= a < coins@.len() && 0 <= b < coins@.len() && a != b ==> coins@[a]@
                    != coins@[b]@,
            forall|c: Seq<char>|
                #![trigger views_of(coins@).contains(c)]
                views_of(coins@).contains(c) <==> all.take(i as int).contains(c),
        decreases n - i,
    {
        let c = coin_of_var(&vars[i]);
        assert(all[i as int] == c@);
        assert(all.take(i + 1) =~= all.take(i as int).push(c@));
        if !contains_text(&coins, &c) {
            let ghost before = coins@;
            coins.push(c);
            assert(views_of(coins@) =~= views_of(before).push(c@));
            proof {
                assert forall|a: int, b: int|
                    0 <= a < coins@.len() && 0 <= b < coins@.len() && a != b implies coins@[a]@
                    != coins@[b]@ by {
                    if a == before.len() as int && b < before.len() {
                        assert(views_of(before)[b] == before[b]@);
                    } else if b == before.len() as int && a < before.len() {
                        assert(views_of(before)[a] == before[a]@);
                    }
                }
            }
        }
        i = i + 1;
    }
    assert(all.take(n as int) =~= all);
    // The properties of each coin.
    let m = coins.len();
    let mut groups: Vec<CoinVariables> = Vec::new();
    let mut j: usize = 0;
    while j < m
        invariant
            n == vars@.len(),
            m == coins@.len(),
            j <= m,
            groups@.len() == j,
            forall|a: int| 0 <= a < j ==> #[trigger] groups@[a].coin@ == coins@[a]@,
            forall|a: int|
                0 <= a < j ==> property_views(#[trigger] groups@[a].properties@) == properties_for(
                    views_of(vars@),
                    coins@[a]@,
                ),
        decreases m - j,
    {
        let c = coins[j].clone();
        let mut props: Vec<MarketProperty> = Vec::new();
        let mut k: usize = 0;
        assert(views_of(vars@).take(0) =~= Seq::<Seq<char>>::empty());
        assert(property_views(props@) =~= Seq::<(Seq<char>, Seq<char>, MarketPropertyType)>::empty());
        while k < n
            invariant
                n == vars@.len(),
                k <= n,
                property_views(props@) == properties_for(views_of(vars@).take(k as int), c@),
            decreases n - k,
        {
            let ghost pre = views_of(vars@).take(k as int);
            assert(views_of(vars@).take(k + 1).drop_last() =~= pre);
            assert(views_of(vars@).take(k + 1).last() == vars@[k as int]@);
            let vc = coin_of_var(&vars[k]);
            if vc == c {
                match property_of_var(&vars[k], &c) {
                    Some(p) => {
                        let ghost before = props@;
                        props.push(p);
                        assert(property_views(props@) =~= property_views(before).push(
                            property_view(p),
                        ));
                    },
                    None => {},
                }
            }
            k = k + 1;
        }
        assert(views_of(vars@).take(n as int) =~= views_of(vars@));
        let ghost before = groups@;
        groups.push(CoinVariables { coin: c, properties: props });
        assert forall|a: int| 0 <= a < j + 1 implies #[trigger] groups@[a].coin@ == coins@[a]@ by {
            if a < j {
                assert(groups@[a] == before[a]);
            }
        }
        assert forall|a: int|
            0 <= a < j + 1 implies property_views(#[trigger] groups@[a].properties@)
            == properties_for(views_of(vars@), coins@[a]@) by {
            if a < j {
                assert(groups@[a] == before[a]);
            }
        }
        j = j + 1;
    }
    assert(coins_of(groups@) =~= views_of(coins@));
    groups
}

/// The coins that a variable of a graphed expression names: the coin of
/// `COIN` or `COIN.PROPERTY`, and with `@TARGET` the target as well.
pub open spec fn graph_var_coins(v: Seq<char>) -> Seq<Seq<char>> {
    let t = split_spec(v, '@');
    let coin = split_spec(t[0], '.')[0];
    if t.len() == 2 {
        seq![coin, t[1]]
    } else {
        seq![coin]
    }
}

/// The coins that the variables of a graphed expression name, in order,
/// repeats included.
pub open spec fn graph_coin_list(vars: Seq<Seq<char>>) -> Seq<Seq<char>>
    decreases vars.len(),
{
    if vars.len() == 0 {
        Seq::empty()
    } else {
        graph_coin_list(vars.drop_last()) + graph_var_coins(vars.last())
    }
}

/// A text in which `c` does not occur.
pub open spec fn free_of(s: Seq<char>, c: char) -> bool {
    forall|i: int| 0 <= i < s.len() ==> #[trigger] s[i] != c
}

/// The coin read from a graphed variable holds neither `.` nor `@`, and a
/// target read from it holds no `@`: the property and the target are cut
/// off before the coin is taken.
pub proof fn law_graph_coin_is_bare(v: Seq<char>)
    ensures
        free_of(graph_var_coins(v)[0], '.'),
        free_of(graph_var_coins(v)[0], '@'),
        graph_var_coins(v).len() == 2 ==> free_of(graph_var_coins(v)[1], '@'),
{
    let t = split_spec(v, '@');
    lemma_split_nonempty(v, '@');
    crate::text::law_split_then_join(v, '@');
    assert forall|j: int| 0 <= j < t[0].len() implies #[trigger] t[0][j] != '@' by {
        assert(t[0][j] == split_spec(v, '@')[0][j]);
    }
    let ok = |c: char| c != '@';
    assert forall|j: int| 0 <= j < t[0].len() implies ok(#[trigger] t[0][j]) by {}
    lemma_split_pieces_keep(t[0], '.', ok);
    lemma_split_nonempty(t[0], '.');
    crate::text::law_split_then_join(t[0], '.');
    let coin = split_spec(t[0], '.')[0];
    assert forall|j: int| 0 <= j < coin.len() implies #[trigger] coin[j] != '.' && coin[j] != '@' by {
        assert(coin[j] == split_spec(t[0], '.')[0][j]);
        assert(ok(split_spec(t[0], '.')[0][j]));
    }
    if t.len() == 2 {
        assert forall|j: int| 0 <= j < t[1].len() implies #[trigger] t[1][j] != '@' by {
            assert(t[1][j] == split_spec(v, '@')[1][j]);
        }
    }
}

/// The coins of the graphed variables `COIN`, `COIN.PROPERTY`,
/// `COIN@TARGET` and `COIN.PROPERTY@TARGET` (with no `.` or `@` in the
/// coin and no `@` in the property or the target) are `COIN`, and then
/// `TARGET` where there is one.
pub proof fn law_graph_coins_of_variable(coin: Seq<char>, property: Seq<char>, target: Seq<char>)
    requires
        free_of(coin, '.'),
        free_of(coin, '@'),
        free_of(property, '@'),
        free_of(target, '@'),
    ensures
        graph_var_coins(coin) == seq![coin],
        graph_var_coins(coin + seq!['.'] + property) == seq![coin],
        graph_var_coins(coin + seq!['@'] + target) == seq![coin, target],
        graph_var_coins(coin + seq!['.'] + property + seq!['@'] + target) == seq![coin, target],
{
    let cp = coin + seq!['.'] + property;
    assert forall|i: int| 0 <= i < cp.len() implies #[trigger] cp[i] != '@' by {
        if i < coin.len() {
            assert(cp[i] == coin[i]);
        } else if i > coin.len() {
            assert(cp[i] == property[i - coin.len() - 1]);
        }
    }
    lemma_split_no_sep(coin, '@');
    lemma_split_no_sep(coin, '.');
    lemma_split_no_sep(cp, '@');
    lemma_split_no_sep(target, '@');
    lemma_split_concat(coin, property, '.');
    lemma_split_concat(coin, target, '@');
    lemma_split_concat(cp, target, '@');
    assert(seq![coin] + seq![target] =~= seq![coin, target]);
    assert(seq![cp] + seq![target] =~= seq![cp, target]);
    assert((split_spec(coin, '.') + split_spec(property, '.'))[0] == coin);
}

/// No two of the strings are equal.
pub open spec fn distinct_texts(v: Seq<String>) -> bool {
    forall|a: int, b: int| 0 <= a < v.len() && 0 <= b < v.len() && a != b ==> v[a]@ != v[b]@
}

/// Adds `c` to `coins` unless it is already there.
fn push_new(coins: &mut Vec<String>, c: String)
    requires
        distinct_texts(old(coins)@),
    ensures
        distinct_texts(final(coins)@),
        forall|x: Seq<char>|
            #![trigger views_of(final(coins)@).contains(x)]
            views_of(final(coins)@).contains(x) <==> views_of(old(coins)@).contains(x) || x == c@,
{
    if !contains_text(coins, &c) {
        let ghost before = coins@;
        let ghost cv = c@;
        coins.push(c);
        assert(views_of(coins@) =~= views_of(before).push(cv));
        assert forall|a: int, b: int|
            0 <= a < coins@.len() && 0 <= b < coins@.len() && a != b implies coins@[a]@
            != coins@[b]@ by {
            if a == before.len() as int && b < before.len() {
                assert(views_of(before)[b] == before[b]@);
            } else if b == before.len() as int && a < before.len() {
                assert(views_of(before)[a] == before[a]@);
            }
        }
    }
}

/// The coins whose price history a graphed expression needs, each once:
/// those that its variables name (see `graph_var_coins`).
pub fn graph_coins(vars: &Vec<String>) -> (r: Vec<String>)
    ensures
        distinct_texts(r@),
        forall|c: Seq<char>|
            #![trigger views_of(r@).contains(c)]
            views_of(r@).contains(c) <==> graph_coin_list(views_of(vars@)).contains(c),
{
    let n = vars.len();
    let mut coins: Vec<String> = Vec::new();
    let mut i: usize = 0;
    assert(views_of(vars@).take(0) =~= Seq::<Seq<char>>::empty());
    while i < n
        invariant
            n == vars@.len(),
            i <= n,
            distinct_texts(coins@),
            forall|c: Seq<char>|
                #![trigger views_of(coins@).contains(c)]
                views_of(coins@).contains(c) <==> graph_coin_list(
                    views_of(vars@).take(i as int),
                ).contains(c),
        decreases n - i,
    {
        let ghost pre = views_of(vars@).take(i as int);
        let ghost v = vars@[i as int]@;
        assert(views_of(vars@).take(i + 1).drop_last() =~= pre);
        assert(views_of(vars@).take(i + 1).last() == v);
        let ghost gv = graph_var_coins(v);
        let t = split_char(vars[i].as_str(), '@');
        proof {
            lemma_split_nonempty(v, '@');
        }
        assert(views_of(t@)[0] == t@[0]@);
        let pieces = split_char(t[0].as_str(), '.');
        proof {
            lemma_split_nonempty(t@[0]@, '.');
        }
        assert(views_of(pieces@)[0] == pieces@[0]@);
        let ghost coins0 = coins@;
        push_new(&mut coins, pieces[0].clone());
        assert(gv[0] == pieces@[0]@);
        if t.len() == 2 {
            assert(views_of(t@)[1] == t@[1]@);
            let ghost coins1 = coins@;
            push_new(&mut coins, t[1].clone());
            assert(gv[1] == t@[1]@);
            assert(gv.len() == 2);
            assert forall|x: Seq<char>| #[trigger] gv.contains(x) <==> (x == gv[0] || x == gv[1]) by {
                if x == gv[1] {
                    assert(gv[1] == x);
                }
                if x == gv[0] {
                    assert(gv[0] == x);
                }
            }
        } else {
            assert(gv.len() == 1);
            assert forall|x: Seq<char>| #[trigger] gv.contains(x) <==> x == gv[0] by {
                if x == gv[0] {
                    assert(gv[0] == x);
                }
            }
        }
        proof {
            broadcast use vstd::seq_lib::lemma_seq_concat_contains_all_elements;

            assert(graph_coin_list(views_of(vars@).take(i + 1)) == graph_coin_list(pre) + gv);
        }
        i = i + 1;
    }
    assert(views_of(vars@).take(n as int) =~= views_of(vars@));
    coins
}

/// The markets in which a coin trades.
#[derive(Debug, Clone)]
pub struct CoinMarkets {
    pub coin: String,
    pub markets: Vec<String>,
}

/// Whether an exchange entry's coin is one the expression's variables name.
pub open spec fn names_variable_coin(groups: Seq<CoinVariables>, e: CoinMarkets) -> bool {
    coins_of(groups).contains(e.coin@)
}

/// The markets in which an expression can be evaluated on one exchange:
/// those in which every coin that its variables name and that the exchange
/// lists is traded. `None` when the exchange lists none of those coins.
pub fn valid_markets(groups: &Vec<CoinVariables>, exchange: &Vec<CoinMarkets>) -> (r: Option<
    Vec<String>,
>)
    ensures
        r is None <==> forall|e: int|
            0 <= e < exchange@.len() ==> !names_variable_coin(groups@, #[trigger] exchange@[e]),
        r matches Some(ms) ==> {
            &&& forall|a: int, b: int|
                0 <= a < ms@.len() && 0 <= b < ms@.len() && a != b ==> ms@[a]@ != ms@[b]@
            &&& forall|m: Seq<char>|
                #![trigger views_of(ms@).contains(m)]
                views_of(ms@).contains(m) <==> forall|e: int|
                    0 <= e < exchange@.len() && names_variable_coin(groups@, #[trigger] exchange@[e])
                        ==> views_of(exchange@[e].markets@).contains(m)
        },
{
    let mut coins: Vec<String> = Vec::new();
    let g = groups.len();
    let mut a: usize = 0;
    while a < g
        invariant
            g == groups@.len(),
            a <= g,
            views_of(coins@) == coins_of(groups@).take(a as int),
        decreases g - a,
    {
        let ghost before = coins@;
        coins.push(groups[a].coin.clone());
        assert(views_of(coins@) =~= views_of(before).push(groups@[a as int].coin@));
        assert(coins_of(groups@).take(a + 1) =~= coins_of(groups@).take(a as int).push(
            groups@[a as int].coin@,
        ));
        a = a + 1;
    }
    assert(coins_of(groups@).take(g as int) =~= coins_of(groups@));
    // The last listed entry of a variable coin.
    let n = exchange.len();
    let mut last: usize = n;
    let mut e: usize = 0;
    while e < n
        invariant
            n == exchange@.len(),
            e <= n,
            views_of(coins@) == coins_of(groups@),
            last == n ==> forall|f: int|
                0 <= f < e ==> !names_variable_coin(groups@, #[trigger] exchange@[f]),
            last != n ==> last < e && names_variable_coin(groups@, exchange@[last as int]),
        decreases n - e,
    {
        if contains_text(&coins, &exchange[e].coin) {
            last = e;
        }
        e = e + 1;
    }
    if last == n {
        return None;
    }
    let base = &exchange[last].markets;
    let bn = base.len();
    let mut result: Vec<String> = Vec::new();
    let mut i: usize = 0;
    while i < bn
        invariant
            n == exchange@.len(),
            last < n,
            names_variable_coin(groups@, exchange@[last as int]),
            views_of(coins@) == coins_of(groups@),
            base == exchange@[last as int].markets,
            bn == base@.len(),
            i <= bn,
            forall|a: int, b: int|
                0 <= a < result@.len() && 0 <= b < result@.len() && a != b ==> result@[a]@
                    != result@[b]@,
            forall|m: Seq<char>|
                #![trigger views_of(result@).contains(m)]
                views_of(result@).contains(m) <==> (views_of(base@.take(i as int)).contains(m)
                    && forall|f: int|
                    0 <= f < exchange@.len() && names_variable_coin(groups@, #[trigger] exchange@[f])
                        ==> views_of(exchange@[f].markets@).contains(m)),
        decreases bn - i,
    {
        let m = &base[i];
        // Is `m` traded for every variable coin?
        let mut everywhere = true;
        let mut f: usize = 0;
        while f < n
            invariant
                n == exchange@.len(),
                f <= n,
                views_of(coins@) == coins_of(groups@),
                everywhere <==> forall|h: int|
                    0 <= h < f && names_variable_coin(groups@, #[trigger] exchange@[h])
                        ==> views_of(exchange@[h].markets@).contains(m@),
            decreases n - f,
        {
            if contains_text(&coins, &exchange[f].coin) {
                if !contains_text(&exchange[f].markets, m) {
                    everywhere = false;
                }
            }
            f = f + 1;
        }
        let seen = contains_text(&result, m);
        let ghost before = result@;
        assert(base@.take(i + 1) =~= base@.take(i as int).push(base@[i as int]));
        assert(views_of(base@.take(i + 1)) =~= views_of(base@.take(i as int)).push(m@));
        if everywhere && !seen {
            result.push(m.clone());
            assert(views_of(result@) =~= views_of(before).push(m@));
            proof {
                assert forall|a: int, b: int|
                    0 <= a < result@.len() && 0 <= b < result@.len() && a != b implies result@[a]@
                    != result@[b]@ by {
                    if a == before.len() as int && b < before.len() {
                        assert(views_of(before)[b] == before[b]@);
                    } else if b == before.len() as int && a < before.len() {
                        assert(views_of(before)[a] == before[a]@);
                    }
                }
            }
        }
        i = i + 1;
    }
    proof {
        assert(base@.take(bn as int) =~= base@);
        assert forall|m: Seq<char>|
            #![trigger views_of(result@).contains(m)]
            views_of(result@).contains(m) <==> forall|f: int|
                0 <= f < exchange@.len() && names_variable_coin(groups@, #[trigger] exchange@[f])
                    ==> views_of(exchange@[f].markets@).contains(m) by {
            if forall|f: int|
                0 <= f < exchange@.len() && names_variable_coin(groups@, #[trigger] exchange@[f])
                    ==> views_of(exchange@[f].markets@).contains(m) {
                assert(views_of(exchange@[last as int].markets@).contains(m));
            }
        }
    }
    Some(result)
}

/// A conversion of a result in some market into a target market, through
/// the price of the market's currency there.
#[derive(Debug, Clone)]
pub struct Conversion {
    /// `MARKET->TARGET`.
    pub label: String,
    /// The coin whose price converts: the market's currency, in uppercase.
    pub coin: String,
    /// The market in which that coin's price is read: the target, in
    /// uppercase.
    pub market: String,
}

/// The index of the first exchange entry for coin `c`, if any.
pub open spec fn find_coin(exchange: Seq<CoinMarkets>, c: Seq<char>) -> Option<int>
    decreases exchange.len(),
{
    if exchange.len() == 0 {
        None
    } else if exchange[0].coin@ == c {
        Some(0)
    } else {
        match find_coin(exchange.drop_first(), c) {
            Some(i) => Some(i + 1),
            None => None,
        }
    }
}

pub proof fn lemma_find_coin(exchange: Seq<CoinMarkets>, c: Seq<char>)
    ensures
        find_coin(exchange, c) matches Some(i) ==> 0 <= i < exchange.len() && exchange[i].coin@
            == c,
    decreases exchange.len(),
{
    if exchange.len() > 0 && exchange[0].coin@ != c {
        lemma_find_coin(exchange.drop_first(), c);
    }
}

/// The conversions of a result in market `m` into `targets`: for each
/// target, in order, when the exchange lists the coin `upper(m)` and it
/// trades in `upper(target)`, one conversion labelled
/// `upper(m) -> upper(target)`.
pub open spec fn conversions_spec(
    m: Seq<char>,
    targets: Seq<Seq<char>>,
    exchange: Seq<CoinMarkets>,
) -> Seq<(Seq<char>, Seq<char>, Seq<char>)>
    decreases targets.len(),
{
    if targets.len() == 0 {
        Seq::empty()
    } else {
        let rest = conversions_spec(m, targets.drop_last(), exchange);
        let coin = upper_text(m);
        let target = upper_text(targets.last());
        match find_coin(exchange, coin) {
            Some(i) => if views_of(exchange[i].markets@).contains(target) {
                rest.push((coin + seq!['-', '>'] + target, coin, target))
            } else {
                rest
            },
            None => rest,
        }
    }
}

pub open spec fn conversion_views(ts: Seq<Conversion>) -> Seq<(Seq<char>, Seq<char>, Seq<char>)> {
    ts.map_values(|t: Conversion| (t.label@, t.coin@, t.market@))
}

/// The first exchange entry for coin `c`.
fn find_coin_exec(exchange: &Vec<CoinMarkets>, c: &String) -> (r: Option<usize>)
    ensures
        match r {
            Some(k) => find_coin(exchange@, c@) == Some(k as int),
            None => find_coin(exchange@, c@) is None,
        },
{
    let n = exchange.len();
    let mut i: usize = 0;
    assert(exchange@.skip(0) =~= exchange@);
    while i < n
        invariant
            n == exchange@.len(),
            i <= n,
            find_coin(exchange@, c@) == match find_coin(exchange@.skip(i as int), c@) {
                Some(k) => Some(k + i),
                None => None,
            },
        decreases n - i,
    {
        let ghost rest = exchange@.skip(i as int);
        assert(rest[0] == exchange@[i as int]);
        assert(rest.drop_first() =~= exchange@.skip(i + 1));
        if exchange[i].coin == *c {
            return Some(i);
        }
        i = i + 1;
    }
    assert(exchange@.skip(n as int).len() == 0);
    None
}

/// Each target converts on its own: the conversions into the targets `a`
/// followed by `b` are those into `a` followed by those into `b`.
pub proof fn law_conversions_concat(
    m: Seq<char>,
    a: Seq<Seq<char>>,
    b: Seq<Seq<char>>,
    exchange: Seq<CoinMarkets>,
)
    ensures
        conversions_spec(m, a + b, exchange) == conversions_spec(m, a, exchange) + conversions_spec(
            m,
            b,
            exchange,
        ),
    decreases b.len(),
{
    if b.len() == 0 {
        assert(a + b =~= a);
        assert(conversions_spec(m, a, exchange) + conversions_spec(m, b, exchange)
            =~= conversions_spec(m, a, exchange));
    } else {
        law_conversions_concat(m, a, b.drop_last(), exchange);
        assert((a + b).drop_last() =~= a + b.drop_last());
        assert((a + b).last() == b.last());
        let x = conversions_spec(m, a, exchange);
        let y = conversions_spec(m, b.drop_last(), exchange);
        let coin = upper_text(m);
        let target = upper_text(b.last());
        match find_coin(exchange, coin) {
            Some(i) => {
                if views_of(exchange[i].markets@).contains(target) {
                    let e = (coin + seq!['-', '>'] + target, coin, target);
                    assert((x + y).push(e) =~= x + y.push(e));
                }
            },
            None => {},
        }
    }
}

/// A single target yields one conversion, labelled `MARKET->TARGET` in
/// uppercase, exactly when the exchange lists the market's coin and that
/// coin trades in the target; with the law above, a target converts
/// whatever the other targets are.
pub proof fn law_conversion_of_one_target(m: Seq<char>, t: Seq<char>, exchange: Seq<CoinMarkets>)
    ensures
        conversions_spec(m, seq![t], exchange).len() <= 1,
        conversions_spec(m, seq![t], exchange).len() == 1 <==> exists|i: int|
            0 <= i < exchange.len() && #[trigger] exchange[i].coin@ == upper_text(m)
                && views_of(exchange[i].markets@).contains(upper_text(t)) && forall|j: int|
                0 <= j < i ==> exchange[j].coin@ != upper_text(m),
        conversions_spec(m, seq![t], exchange).len() == 1 ==> conversions_spec(
            m,
            seq![t],
            exchange,
        )[0] == (upper_text(m) + seq!['-', '>'] + upper_text(t), upper_text(m), upper_text(t)),
{
    let ts = seq![t];
    let c = upper_text(m);
    assert(ts.drop_last() =~= Seq::<Seq<char>>::empty());
    assert(ts.last() == t);
    assert(conversions_spec(m, ts.drop_last(), exchange) == Seq::<
        (Seq<char>, Seq<char>, Seq<char>),
    >::empty());
    lemma_find_coin_first(exchange, c);
    match find_coin(exchange, c) {
        Some(i) => {
            if views_of(exchange[i].markets@).contains(upper_text(t)) {
                assert(exchange[i].coin@ == c);
            } else {
                assert forall|k: int|
                    0 <= k < exchange.len() && #[trigger] exchange[k].coin@ == c && forall|j: int|
                        0 <= j < k ==> exchange[j].coin@ != c implies !views_of(
                    exchange[k].markets@,
                ).contains(upper_text(t)) by {
                    if k > i {
                        assert(exchange[i].coin@ == c);
                    } else if k < i {
                        assert(exchange[k].coin@ != c);
                    }
                }
            }
        },
        None => {},
    }
}

/// `find_coin` gives the first entry for the coin.
proof fn lemma_find_coin_first(exchange: Seq<CoinMarkets>, c: Seq<char>)
    ensures
        match find_coin(exchange, c) {
            Some(i) => 0 <= i < exchange.len() && exchange[i].coin@ == c && forall|j: int|
                0 <= j < i ==> exchange[j].coin@ != c,
            None => forall|j: int| 0 <= j < exchange.len() ==> exchange[j].coin@ != c,
        },
    decreases exchange.len(),
{
    if exchange.len() > 0 {
        lemma_find_coin_first(exchange.drop_first(), c);
        if exchange[0].coin@ != c {
            assert forall|j: int| 1 <= j < exchange.len() implies exchange[j].coin@
                == exchange.drop_first()[j - 1].coin@ by {}
        }
    }
}

/// The conversions of a result in market `market` into the target markets.
pub fn conversions(market: &str, targets: &Vec<String>, exchange: &Vec<CoinMarkets>) -> (r: Vec<
    Conversion,
>)
    ensures
        conversion_views(r@) == conversions_spec(market@, views_of(targets@), exchange@),
{
    let coin = to_uppercase(market);
    let n = targets.len();
    let mut r: Vec<Conversion> = Vec::new();
    let mut i: usize = 0;
    assert(views_of(targets@).take(0) =~= Seq::<Seq<char>>::empty());
    assert(conversion_views(r@) =~= Seq::<(Seq<char>, Seq<char>, Seq<char>)>::empty());
    while i < n
        invariant
            n == targets@.len(),
            i <= n,
            coin@ == upper_text(market@),
            conversion_views(r@) == conversions_spec(
                market@,
                views_of(targets@).take(i as int),
                exchange@,
            ),
        decreases n - i,
    {
        let ghost pre = views_of(targets@).take(i as int);
        assert(views_of(targets@).take(i + 1).drop_last() =~= pre);
        assert(views_of(targets@).take(i + 1).last() == targets@[i as int]@);
        let target = to_uppercase(targets[i].as_str());
        proof {
            lemma_find_coin(exchange@, coin@);
        }
        match find_coin_exec(exchange, &coin) {
            Some(k) => {
                assert(find_coin(exchange@, coin@) is Some);
                let ghost fi = find_coin(exchange@, coin@)->0;
                assert(0 <= fi < exchange@.len());
                assert(k as int == fi);
                if contains_text(&exchange[k].markets, &target) {
                    let label = coin.clone().concat("->").concat(target.as_str());
                    proof {
                        reveal_strlit("->");
                        assert("->"@ =~= seq!['-', '>']);
                    }
                    let t = Conversion { label, coin: coin.clone(), market: target };
                    let ghost before = r@;
                    r.push(t);
                    assert(conversion_views(r@) =~= conversion_views(before).push(
                        (t.label@, t.coin@, t.market@),
                    ));
                    assert(t.label@ == coin@ + seq!['-', '>'] + target@);
                    assert(conversions_spec(market@, views_of(targets@).take(i + 1), exchange@)
                        == conversion_views(before).push((coin@ + seq!['-', '>'] + target@, coin@, target@)));
                } else {
                    assert(conversions_spec(market@, views_of(targets@).take(i + 1), exchange@)
                        == conversion_views(r@));
                }
            },
            None => {},
        }
        i = i + 1;
    }
    assert(views_of(targets@).take(n as int) =~= views_of(targets@));
    r
}

/// Conversions depend on each target only through its uppercase form.
proof fn lemma_conversions_by_upper(
    m: Seq<char>,
    t1: Seq<Seq<char>>,
    t2: Seq<Seq<char>>,
    exchange: Seq<CoinMarkets>,
)
    requires
        t1.len() == t2.len(),
        forall|i: int| 0 <= i < t1.len() ==> upper_text(#[trigger] t1[i]) == upper_text(t2[i]),
    ensures
        conversions_spec(m, t1, exchange) == conversions_spec(m, t2, exchange),
    decreases t1.len(),
{
    if t1.len() > 0 {
        assert forall|i: int| 0 <= i < t1.drop_last().len() implies upper_text(
            #[trigger] t1.drop_last()[i],
        ) == upper_text(t2.drop_last()[i]) by {
            assert(t1.drop_last()[i] == t1[i] && t2.drop_last()[i] == t2[i]);
        }
        lemma_conversions_by_upper(m, t1.drop_last(), t2.drop_last(), exchange);
        assert(upper_text(t1[t1.len() - 1]) == upper_text(t2[t2.len() - 1]));
    }
}

/// The pieces of an ASCII text at `sep` (not a letter), in lowercase and
/// in uppercase, read the same once upper-cased.
proof fn lemma_split_case(s: Seq<char>, sep: char)
    requires
        is_ascii_text(s),
        !('a' <= sep && sep <= 'z'),
        !('A' <= sep && sep <= 'Z'),
    ensures
        split_spec(ascii_lower(s), sep).len() == split_spec(s, sep).len(),
        split_spec(ascii_upper(s), sep).len() == split_spec(s, sep).len(),
        forall|i: int|
            0 <= i < split_spec(s, sep).len() ==> {
                &&& is_ascii_text(#[trigger] split_spec(s, sep)[i])
                &&& split_spec(ascii_lower(s), sep)[i] == ascii_lower(split_spec(s, sep)[i])
                &&& split_spec(ascii_upper(s), sep)[i] == ascii_upper(split_spec(s, sep)[i])
            },
{
    let fl = |c: char| ascii_lower_char(c);
    let fu = |c: char| ascii_upper_char(c);
    assert forall|c: char| #[trigger] fl(c) == sep <==> c == sep by {
        assert('A' as u32 == 65 && 'Z' as u32 == 90);
    }
    assert forall|c: char| #[trigger] fu(c) == sep <==> c == sep by {
        assert('a' as u32 == 97 && 'z' as u32 == 122);
    }
    assert(ascii_lower(s) =~= s.map_values(fl));
    assert(ascii_upper(s) =~= s.map_values(fu));
    lemma_split_map(s, sep, fl);
    lemma_split_map(s, sep, fu);
    let ok = |c: char| is_ascii_char(c);
    assert forall|i: int| 0 <= i < s.len() implies ok(#[trigger] s[i]) by {}
    lemma_split_pieces_keep(s, sep, ok);
    let p = split_spec(s, sep);
    assert forall|i: int| 0 <= i < p.len() implies {
        &&& is_ascii_text(#[trigger] p[i])
        &&& split_spec(ascii_lower(s), sep)[i] == ascii_lower(p[i])
        &&& split_spec(ascii_upper(s), sep)[i] == ascii_upper(p[i])
    } by {
        assert forall|j: int| 0 <= j < p[i].len() implies is_ascii_char(#[trigger] p[i][j]) by {
            assert(ok(p[i][j]));
        }
        assert(map_pieces(p, fl)[i] =~= ascii_lower(p[i]));
        assert(map_pieces(p, fu)[i] =~= ascii_upper(p[i]));
    }
}

/// An ASCII expression means the same written in lowercase as in
/// uppercase: the parser reads the same text from both, and every result
/// converts into the same targets under the same labels.
pub proof fn law_expression_case_insensitive(s: Seq<char>)
    requires
        is_ascii_text(s),
    ensures
        upper_text(conversion_targets_spec(lower_text(s)).0) == upper_text(
            conversion_targets_spec(upper_text(s)).0,
        ),
        forall|m: Seq<char>, exchange: Seq<CoinMarkets>|
            #[trigger] conversions_spec(m, conversion_targets_spec(lower_text(s)).1, exchange)
                == conversions_spec(m, conversion_targets_spec(upper_text(s)).1, exchange),
{
    let p = split_spec(s, '@');
    lemma_split_nonempty(s, '@');
    lemma_split_case(s, '@');
    assert(lower_text(s) == ascii_lower(s));
    assert(upper_text(s) == ascii_upper(s));
    lemma_ascii_case_text(p[0]);
    let t1 = conversion_targets_spec(lower_text(s)).1;
    let t2 = conversion_targets_spec(upper_text(s)).1;
    if p.len() == 2 {
        let q = split_spec(p[1], ',');
        lemma_split_case(p[1], ',');
        assert forall|i: int| 0 <= i < t1.len() implies upper_text(#[trigger] t1[i]) == upper_text(
            t2[i],
        ) by {
            lemma_ascii_case_text(q[i]);
        }
        assert forall|m: Seq<char>, exchange: Seq<CoinMarkets>|
            #[trigger] conversions_spec(m, t1, exchange) == conversions_spec(m, t2, exchange) by {
            lemma_conversions_by_upper(m, t1, t2, exchange);
        }
    } else {
        assert(t1 == t2);
    }
}

/// The pairs of positions at which the two lists name the same market, in
/// order of the first position, then the second.
pub open spec fn matching_pairs_spec(cur: Seq<Seq<char>>, old: Seq<Seq<char>>) -> Seq<(int, int)>
    decreases cur.len(),
{
    if cur.len() == 0 {
        Seq::empty()
    } else {
        let i = cur.len() - 1;
        matching_pairs_spec(cur.drop_last(), old) + matches_in(cur.last(), old).map_values(
            |j: int| (i, j),
        )
    }
}

/// The positions in `old` that name `m`, in order.
pub open spec fn matches_in(m: Seq<char>, old: Seq<Seq<char>>) -> Seq<int>
    decreases old.len(),
{
    if old.len() == 0 {
        Seq::empty()
    } else if old.last() == m {
        matches_in(m, old.drop_last()).push(old.len() - 1)
    } else {
        matches_in(m, old.drop_last())
    }
}

pub open spec fn pair_views(ps: Seq<(usize, usize)>) -> Seq<(int, int)> {
    ps.map_values(|p: (usize, usize)| (p.0 as int, p.1 as int))
}

/// Which current results to compare with which earlier ones when a watch is
/// checked: every pair of positions that name the same market.
pub fn matching_pairs(cur: &Vec<String>, old: &Vec<String>) -> (r: Vec<(usize, usize)>)
    ensures
        pair_views(r@) == matching_pairs_spec(views_of(cur@), views_of(old@)),
{
    let n = cur.len();
    let m = old.len();
    let mut r: Vec<(usize, usize)> = Vec::new();
    let mut i: usize = 0;
    assert(views_of(cur@).take(0) =~= Seq::<Seq<char>>::empty());
    assert(pair_views(r@) =~= Seq::<(int, int)>::empty());
    while i < n
        invariant
            n == cur@.len(),
            m == old@.len(),
            i <= n,
            pair_views(r@) == matching_pairs_spec(views_of(cur@).take(i as int), views_of(old@)),
        decreases n - i,
    {
        let ghost pre_r = pair_views(r@);
        let mut j: usize = 0;
        assert(views_of(old@).take(0) =~= Seq::<Seq<char>>::empty());
        assert(pair_views(r@) =~= pre_r + matches_in(cur@[i as int]@, views_of(old@).take(0)).map_values(
            |k: int| (i as int, k),
        ));
        while j < m
            invariant
                n == cur@.len(),
                m == old@.len(),
                i < n,
                j <= m,
                pair_views(r@) == pre_r + matches_in(
                    cur@[i as int]@,
                    views_of(old@).take(j as int),
                ).map_values(|k: int| (i as int, k)),
            decreases m - j,
        {
            let ghost before = r@;
            let ghost olds = views_of(old@).take(j as int);
            assert(views_of(old@).take(j + 1).drop_last() =~= olds);
            assert(views_of(old@).take(j + 1).last() == old@[j as int]@);
            if cur[i] == old[j] {
                r.push((i, j));
                assert(pair_views(r@) =~= pair_views(before).push((i as int, j as int)));
                assert(matches_in(cur@[i as int]@, views_of(old@).take(j + 1)) == matches_in(
                    cur@[i as int]@,
                    olds,
                ).push(j as int));
                assert(pair_views(r@) =~= pre_r + matches_in(
                    cur@[i as int]@,
                    views_of(old@).take(j + 1),
                ).map_values(|k: int| (i as int, k)));
            } else {
                assert(matches_in(cur@[i as int]@, views_of(old@).take(j + 1)) == matches_in(
                    cur@[i as int]@,
                    olds,
                ));
            }
            j = j + 1;
        }
        assert(views_of(old@).take(m as int) =~= views_of(old@));
        assert(views_of(cur@).take(i + 1).drop_last() =~= views_of(cur@).take(i as int));
        assert(views_of(cur@).take(i + 1).last() == cur@[i as int]@);
        i = i + 1;
    }
    assert(views_of(cur@).take(n as int) =~= views_of(cur@));
    r
}

} // verus!
