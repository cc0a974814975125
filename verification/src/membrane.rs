//! Lipid species configuration records, the tail-topology resolver, and its
//! error taxonomy.

use vstd::prelude::*;
use crate::notation::{bond_orders_of, lemma_bond_orders_range, parse_bond_orders, split_tokens, tokens_of};
use crate::selection::{count_matches, find_unique, match_pos, offset_of, NameMatch, Selection};

verus! {

/// Why resolving one tail-description against a whole-lipid selection failed.
#[derive(Debug, PartialEq, Eq)]
pub enum TailError {
    /// An atom-name token resolved to zero atoms within the selection.
    AtomNotFound { name: String },
    /// An atom-name token resolved to more than one atom within the
    /// selection; the notation requires exactly one match.
    NonUniqueAtomName { name: String },
    /// The atom-name count and the bond-marker count are inconsistent
    /// (expected one more name than bonds); both counts are carried for
    /// diagnostics.
    MalformedTailNotation { n_names: usize, n_bonds: usize },
    /// The external selection engine rejected an expression; propagated by
    /// callers that evaluate selections, never produced by the resolver
    /// itself.
    SelectionEvaluationFailure { message: String },
}

/// Whether two errors carry the same kind and the same diagnostic payload.
pub open spec fn same_error(e1: TailError, e2: TailError) -> bool {
    match (e1, e2) {
        (TailError::AtomNotFound { name: n1 }, TailError::AtomNotFound { name: n2 }) => n1@ == n2@,
        (
            TailError::NonUniqueAtomName { name: n1 },
            TailError::NonUniqueAtomName { name: n2 },
        ) => n1@ == n2@,
        (
            TailError::MalformedTailNotation { n_names: a1, n_bonds: b1 },
            TailError::MalformedTailNotation { n_names: a2, n_bonds: b2 },
        ) => a1 == a2 && b1 == b2,
        (
            TailError::SelectionEvaluationFailure { message: m1 },
            TailError::SelectionEvaluationFailure { message: m2 },
        ) => m1@ == m2@,
        _ => false,
    }
}

/// The position of the first atom-name token that does not resolve to
/// exactly one atom of `sel`, or the token count if every token does.
pub open spec fn first_bad(sel: Selection, toks: Seq<Seq<char>>) -> int
    decreases toks.len(),
{
    if toks.len() == 0 {
        0
    } else if count_matches(sel.atoms@, toks[0]) != 1 {
        0
    } else {
        1 + first_bad(sel, toks.drop_first())
    }
}

proof fn lemma_first_bad_le(sel: Selection, toks: Seq<Seq<char>>)
    ensures
        0 <= first_bad(sel, toks) <= toks.len(),
    decreases toks.len(),
{
    if toks.len() > 0 && count_matches(sel.atoms@, toks[0]) == 1 {
        lemma_first_bad_le(sel, toks.drop_first());
    }
}

proof fn lemma_first_bad_at(sel: Selection, toks: Seq<Seq<char>>, k: int)
    requires
        0 <= k <= toks.len(),
        forall|j: int| 0 <= j < k ==> count_matches(sel.atoms@, #[trigger] toks[j]) == 1,
        k < toks.len() ==> count_matches(sel.atoms@, toks[k]) != 1,
    ensures
        first_bad(sel, toks) == k,
    decreases k, toks.len(),
{
    if k == 0 {
        if toks.len() > 0 {
            assert(count_matches(sel.atoms@, toks[0]) != 1);
        }
    } else {
        assert(count_matches(sel.atoms@, toks[0]) == 1);
        assert(forall|j: int| 0 <= j < k - 1 ==> toks.drop_first()[j] == toks[j + 1]);
        lemma_first_bad_at(sel, toks.drop_first(), k - 1);
    }
}

/// Whether resolving `descr` against `sel` succeeds: every atom-name token
/// resolves to exactly one atom, and there is one more token than bond
/// markers.
pub open spec fn resolution_ok(descr: Seq<char>, sel: Selection) -> bool {
    let toks = tokens_of(descr);
    &&& first_bad(sel, toks) == toks.len()
    &&& toks.len() == bond_orders_of(descr).len() + 1
}

/// The exact outcome of resolving the tail-description `descr` against the
/// whole-lipid selection `sel`:
/// - if some token resolves to zero atoms or to several, the first such
///   token (in notation order) decides, and the result is `AtomNotFound`
///   or `NonUniqueAtomName` for that token's name;
/// - otherwise, if the token count is not one more than the bond-marker
///   count, the result is `MalformedTailNotation` carrying both counts;
/// - otherwise the result is the tail whose offsets are, token by token,
///   the matched atom's global index minus the global index of the
///   selection's first atom, and whose bond orders are the notation's
///   markers in order (`-` is 1, `=` is 2).
pub open spec fn resolves_to(descr: Seq<char>, sel: Selection, r: Result<
    LipidTail,
    TailError,
>) -> bool {
    let toks = tokens_of(descr);
    let bonds = bond_orders_of(descr);
    let fb = first_bad(sel, toks);
    if fb < toks.len() {
        if count_matches(sel.atoms@, toks[fb]) == 0 {
            &&& r is Err
            &&& r->Err_0 is AtomNotFound
            &&& r->Err_0->AtomNotFound_name@ == toks[fb]
        } else {
            &&& r is Err
            &&& r->Err_0 is NonUniqueAtomName
            &&& r->Err_0->NonUniqueAtomName_name@ == toks[fb]
        }
    } else if toks.len() != bonds.len() + 1 {
        &&& r is Err
        &&& r->Err_0 is MalformedTailNotation
        &&& r->Err_0->MalformedTailNotation_n_names == toks.len()
        &&& r->Err_0->MalformedTailNotation_n_bonds == bonds.len()
    } else {
        &&& r is Ok
        &&& (r->Ok_0).c_offsets@.len() == toks.len()
        &&& (r->Ok_0).bond_orders@ == bonds
        &&& forall|k: int|
            0 <= k < toks.len() ==> #[trigger] (r->Ok_0).c_offsets@[k] as int == offset_of(
                sel,
                toks[k],
            )
    }
}

/// A validated tail topology: for the carbons named by a tail notation, in
/// notation order, their position offsets relative to the first atom of the
/// owning lipid's whole-molecule selection, and the bond order (1 = single,
/// 2 = double) between each pair of consecutive carbons.
#[derive(Debug, PartialEq, Eq)]
pub struct LipidTail {
    pub c_offsets: Vec<usize>,
    pub bond_orders: Vec<u8>,
}

impl LipidTail {
    /// A validly constructed tail has one more carbon offset than bond
    /// orders, and every bond order is 1 or 2.
    pub open spec fn wf(self) -> bool {
        &&& self.c_offsets@.len() == self.bond_orders@.len() + 1
        &&& forall|k: int|
            0 <= k < self.bond_orders@.len() ==> 1 <= #[trigger] self.bond_orders@[k] <= 2
    }

    /// Resolves one tail-description string against the whole-molecule
    /// selection of the owning lipid, yielding the validated tail topology
    /// or the first error encountered, exactly as `resolves_to` states.
    pub fn from_tail_descr(descr: &str, sel: &Selection) -> (r: Result<Self, TailError>)
        requires
            sel.wf(),
        ensures
            resolves_to(descr@, *sel, r),
            r matches Ok(t) ==> t.wf(),
            r matches Ok(t) ==> t.c_offsets@.len() == tokens_of(descr@).len(),
    {
        let toks = split_tokens(descr);
        let bond_orders = parse_bond_orders(descr);
        let ghost tseq = tokens_of(descr@);
        let mut c_offsets: Vec<usize> = Vec::new();
        let mut i: usize = 0;
        while i < toks.len()
            invariant
                sel.wf(),
                i <= toks@.len(),
                tseq == tokens_of(descr@),
                toks@.map_values(|t: String| t@) == tseq,
                bond_orders@ == bond_orders_of(descr@),
                c_offsets@.len() == i,
                forall|j: int|
                    0 <= j < i ==> count_matches(sel.atoms@, #[trigger] tseq[j]) == 1,
                forall|j: int|
                    0 <= j < i ==> #[trigger] c_offsets@[j] as int == offset_of(*sel, tseq[j]),
            decreases toks@.len() - i,
        {
            proof {
                assert(tseq[i as int] == toks@[i as int]@);
            }
            match find_unique(sel, toks[i].as_str()) {
                NameMatch::Missing => {
                    proof {
                        lemma_first_bad_at(*sel, tseq, i as int);
                    }
                    return Err(TailError::AtomNotFound { name: toks[i].clone() });
                },
                NameMatch::Multiple => {
                    proof {
                        lemma_first_bad_at(*sel, tseq, i as int);
                    }
                    return Err(TailError::NonUniqueAtomName { name: toks[i].clone() });
                },
                NameMatch::Unique { offset } => {
                    c_offsets.push(offset);
                },
            }
            i = i + 1;
        }
        proof {
            lemma_first_bad_at(*sel, tseq, tseq.len() as int);
        }
        if c_offsets.len() == 0 || c_offsets.len() - 1 != bond_orders.len() {
            return Err(
                TailError::MalformedTailNotation {
                    n_names: c_offsets.len(),
                    n_bonds: bond_orders.len(),
                },
            );
        }
        proof {
            lemma_bond_orders_range(descr@);
        }
        Ok(LipidTail { c_offsets, bond_orders })
    }
}

/// The declarative record of one lipid species: its name, the selection
/// expressions for the whole molecule, head group, tail region and surface
/// atoms, and one tail-notation string per tail chain. Only the
/// whole-molecule selection is consumed by the resolver; the other three
/// expressions are passed through for downstream consumers.
#[derive(Debug)]
pub struct LipidSpecies {
    pub name: String,
    pub whole_sel_str: String,
    pub head_subsel_str: String,
    pub tail_subsel_str: String,
    pub surf_subsel_str: String,
    pub tails_descr: Vec<String>,
}

impl LipidSpecies {
    /// Resolves every tail-description of this species against the given
    /// whole-molecule selection, fail-fast: the first failing description
    /// aborts resolution and its error is returned; on success the tails
    /// come in description order.
    pub fn resolve_tails(&self, whole: &Selection) -> (r: Result<Vec<LipidTail>, TailError>)
        requires
            whole.wf(),
        ensures
            r matches Ok(tails) ==> {
                &&& tails@.len() == self.tails_descr@.len()
                &&& forall|k: int|
                    0 <= k < tails@.len() ==> resolution_ok(#[trigger] self.tails_descr@[k]@, *whole)
                &&& forall|k: int|
                    0 <= k < tails@.len() ==> resolves_to(
                        self.tails_descr@[k]@,
                        *whole,
                        Ok(#[trigger] tails@[k]),
                    )
                &&& forall|k: int| 0 <= k < tails@.len() ==> (#[trigger] tails@[k]).wf()
            },
            r matches Err(e) ==> exists|k: int|
                {
                    &&& 0 <= k < self.tails_descr@.len()
                    &&& !resolution_ok(#[trigger] self.tails_descr@[k]@, *whole)
                    &&& forall|j: int|
                        0 <= j < k ==> resolution_ok(#[trigger] self.tails_descr@[j]@, *whole)
                    &&& resolves_to(self.tails_descr@[k]@, *whole, Err(e))
                },
    {
        let mut tails: Vec<LipidTail> = Vec::new();
        let n = self.tails_descr.len();
        let mut i: usize = 0;
        while i < n
            invariant
                whole.wf(),
                n == self.tails_descr@.len(),
                i <= n,
                tails@.len() == i,
                forall|j: int|
                    0 <= j < i ==> resolution_ok(#[trigger] self.tails_descr@[j]@, *whole),
                forall|j: int|
                    0 <= j < i ==> resolves_to(
                        self.tails_descr@[j]@,
                        *whole,
                        Ok(#[trigger] tails@[j]),
                    ),
                forall|j: int| 0 <= j < i ==> (#[trigger] tails@[j]).wf(),
            decreases n - i,
        {
            match LipidTail::from_tail_descr(self.tails_descr[i].as_str(), whole) {
                Ok(t) => {
                    proof {
                        lemma_first_bad_le(*whole, tokens_of(self.tails_descr@[i as int]@));
                    }
                    tails.push(t);
                },
                Err(e) => {
                    proof {
                        assert(!resolution_ok(self.tails_descr@[i as int]@, *whole));
                    }
                    return Err(e);
                },
            }
            i = i + 1;
        }
        Ok(tails)
    }
}

/// The top-level configuration: the declared lipid species, in document
/// order.
#[derive(Debug)]
pub struct Config {
    pub lipid_species: Vec<LipidSpecies>,
}

/// Offset anchoring: when the first atom-name token of a notation names the
/// selection's own first atom (and no other atom), the first resolved
/// offset is 0. (For a notation whose first token names a later atom of
/// the selection, the first offset is that atom's distance from the
/// selection's first atom instead.)
pub proof fn lemma_first_offset_anchored(descr: Seq<char>, sel: Selection, t: LipidTail)
    requires
        sel.wf(),
        resolves_to(descr, sel, Ok(t)),
        sel.atoms@.len() > 0,
        sel.atoms@[0].name@ == tokens_of(descr)[0],
    ensures
        t.c_offsets@[0] == 0,
{
    lemma_first_bad_le(sel, tokens_of(descr));
    assert(tokens_of(descr).len() > 0);
    assert(match_pos(sel.atoms@, tokens_of(descr)[0]) == 0);
    assert(t.c_offsets@[0] as int == offset_of(sel, tokens_of(descr)[0]));
}

/// Idempotence of resolution: the outcome of resolving a tail-description
/// against a selection is a pure function of the two inputs, so two
/// resolutions of the same description against the same selection yield
/// identical tails (same offsets, same bond orders) or the same error.
pub proof fn lemma_resolution_deterministic(
    descr: Seq<char>,
    sel: Selection,
    r1: Result<LipidTail, TailError>,
    r2: Result<LipidTail, TailError>,
)
    requires
        resolves_to(descr, sel, r1),
        resolves_to(descr, sel, r2),
    ensures
        r1 is Ok <==> r2 is Ok,
        r1 is Ok && r2 is Ok ==> (r1->Ok_0).c_offsets@ == (r2->Ok_0).c_offsets@ && (
        r1->Ok_0).bond_orders@ == (r2->Ok_0).bond_orders@,
        r1 is Err && r2 is Err ==> same_error(r1->Err_0, r2->Err_0),
{
    if r1 is Ok && r2 is Ok {
        let t1 = r1->Ok_0;
        let t2 = r2->Ok_0;
        assert(t1.c_offsets@ =~= t2.c_offsets@);
    }
}

} // verus!
