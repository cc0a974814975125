//! The tail-notation mini-format: a sequence of atom-name tokens separated
//! by single-character bond markers, where `-` denotes a single bond and `=`
//! a double bond between the adjacent atom names (e.g. `C1-C2=C3`).

use vstd::prelude::*;
use vstd::string::StrSliceExecFns;

verus! {

/// A bond-marker character: `-` (single bond) or `=` (double bond).
pub open spec fn is_marker(c: char) -> bool {
    c == '-' || c == '='
}

/// The bond order denoted by a marker: `-` is 1, `=` is 2.
pub open spec fn marker_order(c: char) -> u8 {
    if c == '-' {
        1u8
    } else {
        2u8
    }
}

/// The bond orders denoted by a notation string: its marker characters in
/// order, each mapped to its bond order.
pub open spec fn bond_orders_of(s: Seq<char>) -> Seq<u8>
    decreases s.len(),
{
    if s.len() == 0 {
        Seq::empty()
    } else if is_marker(s[0]) {
        seq![marker_order(s[0])] + bond_orders_of(s.drop_first())
    } else {
        bond_orders_of(s.drop_first())
    }
}

/// The longest marker-free prefix of `s`.
pub open spec fn token_prefix(s: Seq<char>) -> Seq<char>
    decreases s.len(),
{
    if s.len() == 0 || is_marker(s[0]) {
        Seq::empty()
    } else {
        seq![s[0]] + token_prefix(s.drop_first())
    }
}

/// The atom-name tokens of a notation string: its maximal non-empty
/// marker-free runs, in order.
pub open spec fn tokens_of(s: Seq<char>) -> Seq<Seq<char>>
    decreases s.len(),
    via tokens_of_decreases
{
    if s.len() == 0 {
        Seq::empty()
    } else if is_marker(s[0]) {
        tokens_of(s.drop_first())
    } else {
        seq![token_prefix(s)] + tokens_of(s.skip(token_prefix(s).len() as int))
    }
}

#[via_fn]
proof fn tokens_of_decreases(s: Seq<char>) {
    if s.len() > 0 && !is_marker(s[0]) {
        lemma_token_prefix_len(s);
        assert(token_prefix(s) == seq![s[0]] + token_prefix(s.drop_first()));
        assert(token_prefix(s).len() >= 1);
    }
}

/// The marker-free prefix of `s` is no longer than `s`.
proof fn lemma_token_prefix_len(s: Seq<char>)
    ensures
        token_prefix(s).len() <= s.len(),
    decreases s.len(),
{
    if s.len() > 0 && !is_marker(s[0]) {
        lemma_token_prefix_len(s.drop_first());
    }
}

/// Every bond order denoted by a notation string is 1 or 2.
pub proof fn lemma_bond_orders_range(s: Seq<char>)
    ensures
        forall|k: int| 0 <= k < bond_orders_of(s).len() ==> 1 <= #[trigger] bond_orders_of(s)[k] <= 2,
    decreases s.len(),
{
    if s.len() > 0 {
        lemma_bond_orders_range(s.drop_first());
        if is_marker(s[0]) {
            assert(forall|k: int|
                1 <= k < bond_orders_of(s).len() ==> #[trigger] bond_orders_of(s)[k]
                    == bond_orders_of(s.drop_first())[k - 1]);
        } else {
            assert(bond_orders_of(s) == bond_orders_of(s.drop_first()));
        }
    }
}

proof fn lemma_token_prefix_range(s: Seq<char>, i: int, j: int)
    requires
        0 <= i <= j <= s.len(),
        forall|k: int| i <= k < j ==> !is_marker(#[trigger] s[k]),
        j == s.len() || is_marker(s[j]),
    ensures
        token_prefix(s.skip(i)) == s.subrange(i, j),
    decreases j - i,
{
    if i == j {
        assert(token_prefix(s.skip(i)) =~= s.subrange(i, j));
    } else {
        lemma_token_prefix_range(s, i + 1, j);
        assert(s.skip(i).drop_first() =~= s.skip(i + 1));
        assert(token_prefix(s.skip(i)) =~= s.subrange(i, j));
    }
}

/// Unfolds `tokens_of` across one maximal marker-free run `s[i..j]`.
proof fn lemma_tokens_step(s: Seq<char>, i: int, j: int)
    requires
        0 <= i < j <= s.len(),
        forall|k: int| i <= k < j ==> !is_marker(#[trigger] s[k]),
        j == s.len() || is_marker(s[j]),
    ensures
        tokens_of(s.skip(i)) == seq![s.subrange(i, j)] + tokens_of(s.skip(j)),
{
    lemma_token_prefix_range(s, i, j);
    assert(!is_marker(s.skip(i)[0]));
    assert(token_prefix(s.skip(i)).len() == j - i);
    assert(s.skip(i).skip(j - i) =~= s.skip(j));
}

/// Whether `c` is a bond-marker character.
pub fn is_marker_char(c: char) -> (r: bool)
    ensures
        r == is_marker(c),
{
    c == '-' || c == '='
}

/// Splits a notation string on the bond-marker character class, yielding the
/// ordered atom-name tokens (empty runs, as arise from consecutive, leading
/// or trailing markers, yield no token).
pub fn split_tokens(descr: &str) -> (toks: Vec<String>)
    ensures
        toks@.map_values(|t: String| t@) == tokens_of(descr@),
{
    let n = descr.unicode_len();
    let mut toks: Vec<String> = Vec::new();
    let mut i: usize = 0;
    proof {
        assert(descr@.skip(0) =~= descr@);
        assert(toks@.map_values(|t: String| t@) + tokens_of(descr@.skip(0)) =~= tokens_of(descr@));
    }
    while i < n
        invariant
            i <= n,
            n == descr@.len(),
            tokens_of(descr@) == toks@.map_values(|t: String| t@) + tokens_of(descr@.skip(i as int)),
        decreases n - i,
    {
        let c = descr.get_char(i);
        if is_marker_char(c) {
            proof {
                assert(descr@.skip(i as int).drop_first() =~= descr@.skip(i as int + 1));
            }
            i = i + 1;
        } else {
            let start = i;
            let mut j: usize = i + 1;
            while j < n
                invariant
                    start < j <= n,
                    n == descr@.len(),
                    forall|k: int| start <= k < j ==> !is_marker(#[trigger] descr@[k]),
                ensures
                    start < j <= n,
                    forall|k: int| start <= k < j ==> !is_marker(#[trigger] descr@[k]),
                    j == n || is_marker(descr@[j as int]),
                decreases n - j,
            {
                if is_marker_char(descr.get_char(j)) {
                    break ;
                }
                j = j + 1;
            }
            let t = descr.substring_char(start, j).to_owned();
            proof {
                lemma_tokens_step(descr@, start as int, j as int);
                assert(toks@.push(t).map_values(|t: String| t@) =~= toks@.map_values(
                    |t: String| t@,
                ).push(t@));
                assert(toks@.map_values(|t: String| t@).push(t@) + tokens_of(descr@.skip(j as int))
                    =~= toks@.map_values(|t: String| t@) + (seq![descr@.subrange(
                    start as int,
                    j as int,
                )] + tokens_of(descr@.skip(j as int))));
            }
            toks.push(t);
            i = j;
        }
    }
    proof {
        assert(descr@.skip(n as int) =~= Seq::<char>::empty());
        assert(toks@.map_values(|t: String| t@) + tokens_of(descr@.skip(n as int)) =~= toks@
            .map_values(|t: String| t@));
    }
    toks
}

/// Extracts the bond orders from a notation string: one entry per marker
/// character, in order, `-` mapped to 1 and `=` to 2.
pub fn parse_bond_orders(descr: &str) -> (orders: Vec<u8>)
    ensures
        orders@ == bond_orders_of(descr@),
{
    let n = descr.unicode_len();
    let mut orders: Vec<u8> = Vec::new();
    let mut i: usize = 0;
    proof {
        assert(descr@.skip(0) =~= descr@);
        assert(orders@ + bond_orders_of(descr@.skip(0)) =~= bond_orders_of(descr@));
    }
    while i < n
        invariant
            i <= n,
            n == descr@.len(),
            bond_orders_of(descr@) == orders@ + bond_orders_of(descr@.skip(i as int)),
        decreases n - i,
    {
        let c = descr.get_char(i);
        proof {
            assert(descr@.skip(i as int).drop_first() =~= descr@.skip(i as int + 1));
        }
        if c == '-' {
            let ghost before = orders@;
            orders.push(1);
            proof {
                assert(before + seq![1u8] + bond_orders_of(descr@.skip(i as int + 1)) =~= before + (
                seq![1u8] + bond_orders_of(descr@.skip(i as int + 1))));
            }
        } else if c == '=' {
            let ghost before = orders@;
            orders.push(2);
            proof {
                assert(before + seq![2u8] + bond_orders_of(descr@.skip(i as int + 1)) =~= before + (
                seq![2u8] + bond_orders_of(descr@.skip(i as int + 1))));
            }
        }
        i = i + 1;
    }
    proof {
        assert(descr@.skip(n as int) =~= Seq::<char>::empty());
        assert(orders@ + bond_orders_of(descr@.skip(n as int)) =~= orders@);
    }
    orders
}

/// Marker mapping: the bond orders of a notation are exactly its marker
/// characters, in order, with `-` mapped to bond order 1 and `=` to bond
/// order 2.
pub proof fn lemma_bond_orders_are_markers(s: Seq<char>)
    ensures
        bond_orders_of(s) == s.filter(|c: char| is_marker(c)).map_values(
            |c: char| marker_order(c),
        ),
    decreases s.len(),
{
    reveal(Seq::filter);
    let p = |c: char| is_marker(c);
    let f = |c: char| marker_order(c);
    if s.len() == 0 {
        assert(s.filter(p) =~= Seq::<char>::empty());
        assert(s.filter(p).map_values(f) =~= Seq::<u8>::empty());
    } else {
        lemma_bond_orders_are_markers(s.drop_first());
        s.drop_first().lemma_filter_prepend(s[0], p);
        assert(seq![s[0]] + s.drop_first() =~= s);
        if is_marker(s[0]) {
            assert(s.filter(p) == seq![s[0]] + s.drop_first().filter(p));
            assert((seq![s[0]] + s.drop_first().filter(p)).map_values(f) =~= seq![f(s[0])]
                + s.drop_first().filter(p).map_values(f));
            assert(bond_orders_of(s) == s.filter(p).map_values(f));
        } else {
            assert(s.filter(p) == Seq::<char>::empty() + s.drop_first().filter(p));
            assert(Seq::<char>::empty() + s.drop_first().filter(p) =~= s.drop_first().filter(p));
            assert(bond_orders_of(s) == s.filter(p).map_values(f));
        }
    }
}

} // verus!
