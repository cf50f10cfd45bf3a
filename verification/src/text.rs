//! Character-level helpers on strings: splitting at a separator and
//! comparing, each with a specification over the `Seq<char>` view.
use vstd::prelude::*;

verus! {

/// The pieces of `s` between occurrences of `sep`, as `str::split` with a
/// one-character pattern yields them: one more piece than there are
/// separators, empty pieces included.
pub open spec fn split_spec(s: Seq<char>, sep: char) -> Seq<Seq<char>>
    decreases s.len(),
{
    if s.len() == 0 {
        seq![Seq::<char>::empty()]
    } else {
        let rest = split_spec(s.drop_last(), sep);
        if s.last() == sep {
            rest.push(Seq::<char>::empty())
        } else {
            rest.update(rest.len() - 1, rest.last().push(s.last()))
        }
    }
}

/// The views of a sequence of strings.
pub open spec fn views_of(v: Seq<String>) -> Seq<Seq<char>> {
    v.map_values(|p: String| p@)
}

/// `split_spec` never yields an empty list of pieces.
pub proof fn lemma_split_nonempty(s: Seq<char>, sep: char)
    ensures
        split_spec(s, sep).len() >= 1,
    decreases s.len(),
{
    if s.len() > 0 {
        lemma_split_nonempty(s.drop_last(), sep);
    }
}

/// Splits `s` at every occurrence of `sep`.
pub fn split_char(s: &str, sep: char) -> (pieces: Vec<String>)
    ensures
        views_of(pieces@) == split_spec(s@, sep),
{
    let n = s.unicode_len();
    let mut pieces: Vec<String> = Vec::new();
    let mut start: usize = 0;
    let mut i: usize = 0;
    assert(s@.take(0) =~= Seq::<char>::empty());
    while i < n
        invariant
            n == s@.len(),
            start <= i <= n,
            split_spec(s@.take(i as int), sep) == views_of(pieces@).push(
                s@.subrange(start as int, i as int),
            ),
        decreases n - i,
    {
        let c = s.get_char(i);
        let ghost prev = s@.take(i as int);
        assert(s@.take(i + 1).drop_last() =~= prev);
        assert(s@.take(i + 1).last() == c);
        if c == sep {
            let piece = String::from_str(s.substring_char(start, i));
            let ghost before = pieces@;
            pieces.push(piece);
            assert(views_of(pieces@) =~= views_of(before).push(piece@));
            start = i + 1;
            assert(s@.subrange(start as int, i + 1) =~= Seq::<char>::empty());
            assert(split_spec(s@.take(i + 1), sep) =~= views_of(pieces@).push(
                s@.subrange(start as int, i + 1),
            ));
        } else {
            assert(s@.subrange(start as int, i + 1) =~= s@.subrange(start as int, i as int).push(c));
            assert(split_spec(s@.take(i + 1), sep) =~= views_of(pieces@).push(
                s@.subrange(start as int, i + 1),
            ));
        }
        i = i + 1;
    }
    let last = String::from_str(s.substring_char(start, n));
    let ghost before = pieces@;
    pieces.push(last);
    assert(s@.take(n as int) =~= s@);
    assert(views_of(pieces@) =~= views_of(before).push(last@));
    pieces
}

/// Whether two strings hold the same characters.
pub fn same_text(a: &str, b: &str) -> (r: bool)
    ensures
        r == (a@ == b@),
{
    let n = a.unicode_len();
    let m = b.unicode_len();
    if n != m {
        return false;
    }
    let mut i: usize = 0;
    while i < n
        invariant
            n == a@.len(),
            m == b@.len(),
            n == m,
            i <= n,
            forall|k: int| 0 <= k < i ==> a@[k] == b@[k],
        decreases n - i,
    {
        if a.get_char(i) != b.get_char(i) {
            return false;
        }
        i = i + 1;
    }
    assert(a@ =~= b@);
    true
}

/// The pieces joined back together, with `sep` between each two.
pub open spec fn join_spec(pieces: Seq<Seq<char>>, sep: char) -> Seq<char>
    decreases pieces.len(),
{
    if pieces.len() <= 1 {
        if pieces.len() == 1 {
            pieces[0]
        } else {
            Seq::<char>::empty()
        }
    } else {
        join_spec(pieces.drop_last(), sep) + seq![sep] + pieces.last()
    }
}

/// Splitting at a separator loses nothing: joining the pieces with the
/// separator gives the text back, and no piece holds the separator.
pub proof fn law_split_then_join(s: Seq<char>, sep: char)
    ensures
        join_spec(split_spec(s, sep), sep) == s,
        forall|i: int, j: int|
            0 <= i < split_spec(s, sep).len() && 0 <= j < split_spec(s, sep)[i].len() ==> #[trigger] split_spec(
                s,
                sep,
            )[i][j] != sep,
    decreases s.len(),
{
    if s.len() > 0 {
        let rest = split_spec(s.drop_last(), sep);
        law_split_then_join(s.drop_last(), sep);
        lemma_split_nonempty(s.drop_last(), sep);
        let p = split_spec(s, sep);
        if s.last() == sep {
            assert(p.drop_last() =~= rest);
            assert(join_spec(p, sep) =~= s.drop_last() + seq![sep] + Seq::<char>::empty());
            assert(s.drop_last() + seq![sep] + Seq::<char>::empty() =~= s);
            assert forall|i: int, j: int|
                0 <= i < p.len() && 0 <= j < p[i].len() implies #[trigger] p[i][j] != sep by {
                if i < rest.len() {
                    assert(p[i] == rest[i]);
                }
            }
        } else {
            let n = rest.len();
            let x = rest.last().push(s.last());
            assert(p == rest.update(n - 1, x));
            if n >= 2 {
                assert(p.drop_last() =~= rest.drop_last());
                assert(join_spec(p, sep) == join_spec(rest.drop_last(), sep) + seq![sep] + x);
                assert(join_spec(p, sep) =~= join_spec(rest, sep).push(s.last()));
            } else {
                assert(join_spec(p, sep) == x);
                assert(join_spec(rest, sep) == rest[0]);
            }
            assert(s.drop_last().push(s.last()) =~= s);
            assert forall|i: int, j: int|
                0 <= i < p.len() && 0 <= j < p[i].len() implies #[trigger] p[i][j] != sep by {
                if i < n - 1 {
                    assert(p[i] == rest[i]);
                } else if j < rest.last().len() {
                    assert(p[i][j] == rest[n - 1][j]);
                }
            }
        }
    } else {
        let p = split_spec(s, sep);
        assert(p[0] =~= s);
    }
}


/// The pieces with `f` applied to each of their characters.
pub open spec fn map_pieces(pieces: Seq<Seq<char>>, f: spec_fn(char) -> char) -> Seq<Seq<char>> {
    pieces.map_values(|p: Seq<char>| p.map_values(f))
}

/// Splitting commutes with a mapping of characters that sends the
/// separator, and nothing else, to the separator.
pub proof fn lemma_split_map(s: Seq<char>, sep: char, f: spec_fn(char) -> char)
    requires
        forall|c: char| #[trigger] f(c) == sep <==> c == sep,
    ensures
        split_spec(s.map_values(f), sep) == map_pieces(split_spec(s, sep), f),
    decreases s.len(),
{
    let t = s.map_values(f);
    if s.len() == 0 {
        assert(t =~= Seq::<char>::empty());
        assert(Seq::<char>::empty().map_values(f) =~= Seq::<char>::empty());
        assert(split_spec(t, sep) =~~= map_pieces(split_spec(s, sep), f));
    } else {
        let rest = split_spec(s.drop_last(), sep);
        lemma_split_map(s.drop_last(), sep, f);
        lemma_split_nonempty(s.drop_last(), sep);
        assert(t.drop_last() =~= s.drop_last().map_values(f));
        assert(t.last() == f(s.last()));
        if s.last() == sep {
            assert(Seq::<char>::empty().map_values(f) =~= Seq::<char>::empty());
            assert(split_spec(t, sep) =~~= map_pieces(split_spec(s, sep), f));
        } else {
            let n = rest.len();
            let x = rest.last().push(s.last());
            assert(x.map_values(f) =~= rest.last().map_values(f).push(f(s.last())));
            assert(split_spec(t, sep) =~~= map_pieces(split_spec(s, sep), f));
        }
    }
}

/// Every character of every piece satisfies a property that every
/// character of the text satisfies.
pub proof fn lemma_split_pieces_keep(s: Seq<char>, sep: char, ok: spec_fn(char) -> bool)
    requires
        forall|i: int| 0 <= i < s.len() ==> ok(#[trigger] s[i]),
    ensures
        forall|i: int, j: int|
            0 <= i < split_spec(s, sep).len() && 0 <= j < split_spec(s, sep)[i].len() ==> ok(
                #[trigger] split_spec(s, sep)[i][j],
            ),
    decreases s.len(),
{
    if s.len() > 0 {
        let rest = split_spec(s.drop_last(), sep);
        assert forall|i: int| 0 <= i < s.drop_last().len() implies ok(
            #[trigger] s.drop_last()[i],
        ) by {
            assert(s.drop_last()[i] == s[i]);
        }
        lemma_split_pieces_keep(s.drop_last(), sep, ok);
        lemma_split_nonempty(s.drop_last(), sep);
        let p = split_spec(s, sep);
        assert(ok(s[s.len() - 1]));
        assert forall|i: int, j: int| 0 <= i < p.len() && 0 <= j < p[i].len() implies ok(
            #[trigger] p[i][j],
        ) by {
            if i < rest.len() - 1 || s.last() == sep && i < rest.len() {
                assert(p[i] == rest[i]);
            } else if s.last() != sep && j < rest.last().len() {
                assert(p[i][j] == rest[rest.len() - 1][j]);
            }
        }
    }
}


/// A text without the separator is a single piece.
pub proof fn lemma_split_no_sep(a: Seq<char>, sep: char)
    requires
        forall|i: int| 0 <= i < a.len() ==> #[trigger] a[i] != sep,
    ensures
        split_spec(a, sep) == seq![a],
    decreases a.len(),
{
    if a.len() == 0 {
        assert(a =~= Seq::<char>::empty());
        assert(split_spec(a, sep) =~= seq![a]);
    } else {
        assert forall|i: int| 0 <= i < a.drop_last().len() implies #[trigger] a.drop_last()[i]
            != sep by {
            assert(a.drop_last()[i] == a[i]);
        }
        lemma_split_no_sep(a.drop_last(), sep);
        assert(a[a.len() - 1] != sep);
        assert(a.drop_last().push(a.last()) =~= a);
        assert(split_spec(a, sep) =~= seq![a]);
    }
}

/// Splitting `x`, a separator, then `y` gives the pieces of `x` followed
/// by the pieces of `y`.
pub proof fn lemma_split_concat(x: Seq<char>, y: Seq<char>, sep: char)
    ensures
        split_spec(x + seq![sep] + y, sep) == split_spec(x, sep) + split_spec(y, sep),
    decreases y.len(),
{
    let s = x + seq![sep] + y;
    if y.len() == 0 {
        assert(s.drop_last() =~= x);
        assert(s.last() == sep);
        assert(split_spec(y, sep) =~= seq![Seq::<char>::empty()]);
        assert(split_spec(s, sep) =~= split_spec(x, sep) + split_spec(y, sep));
    } else {
        lemma_split_concat(x, y.drop_last(), sep);
        lemma_split_nonempty(y.drop_last(), sep);
        assert(s.drop_last() =~= x + seq![sep] + y.drop_last());
        assert(s.last() == y.last());
        let a = split_spec(x, sep);
        let r = split_spec(y.drop_last(), sep);
        if y.last() == sep {
            assert(split_spec(s, sep) =~= a + r.push(Seq::<char>::empty()));
        } else {
            assert((a + r).last() == r.last());
            assert(split_spec(s, sep) =~= a + r.update(r.len() - 1, r.last().push(y.last())));
        }
    }
}

} // verus!
