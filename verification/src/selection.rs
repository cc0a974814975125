//! The library's view of a whole-lipid atom selection: an ordered set of atom
//! handles, each exposing a global atom index and a name, as handed over by
//! the external selection engine.

use vstd::prelude::*;
use vstd::string::StrSliceExecFns;

verus! {

/// One atom handle of a selection: the atom's global index within the
/// topology, and its name.
pub struct SelAtom {
    pub index: usize,
    pub name: String,
}

/// An ordered, indexable set of atom handles resolved from a selection
/// expression, in ascending global-index order.
pub struct Selection {
    pub atoms: Vec<SelAtom>,
}

impl Selection {
    /// Well-formedness: global indices are strictly increasing, so the first
    /// atom has the least global index of the selection.
    pub open spec fn wf(self) -> bool {
        forall|i: int, j: int|
            0 <= i < j < self.atoms@.len() ==> #[trigger] self.atoms@[i].index
                < #[trigger] self.atoms@[j].index
    }
}

/// How many atoms of `atoms` are named `name`.
pub open spec fn count_matches(atoms: Seq<SelAtom>, name: Seq<char>) -> nat
    decreases atoms.len(),
{
    if atoms.len() == 0 {
        0
    } else {
        (if atoms[0].name@ == name {
            1nat
        } else {
            0nat
        }) + count_matches(atoms.drop_first(), name)
    }
}

/// The position within `atoms` of the first atom named `name` (meaningful
/// only when such an atom exists).
pub open spec fn match_pos(atoms: Seq<SelAtom>, name: Seq<char>) -> int
    decreases atoms.len(),
{
    if atoms.len() == 0 {
        0
    } else if atoms[0].name@ == name {
        0
    } else {
        1 + match_pos(atoms.drop_first(), name)
    }
}

/// The selection-local offset of the first atom of `sel` named `name`: its
/// global index minus the global index of the selection's first atom.
pub open spec fn offset_of(sel: Selection, name: Seq<char>) -> int {
    sel.atoms@[match_pos(sel.atoms@, name)].index - sel.atoms@[0].index
}

/// `match_pos` is the position of the first matching atom.
proof fn lemma_match_pos_at(atoms: Seq<SelAtom>, name: Seq<char>, p: int)
    requires
        0 <= p < atoms.len(),
        atoms[p].name@ == name,
        forall|k: int| 0 <= k < p ==> #[trigger] atoms[k].name@ != name,
    ensures
        match_pos(atoms, name) == p,
    decreases p,
{
    if p > 0 {
        assert(forall|k: int| 0 <= k < p - 1 ==> atoms.drop_first()[k] == atoms[k + 1]);
        lemma_match_pos_at(atoms.drop_first(), name, p - 1);
    }
}

/// The outcome of looking one atom name up within a whole-lipid selection.
pub enum NameMatch {
    /// No atom of the selection has the name.
    Missing,
    /// Exactly one atom has the name; `offset` is its selection-local
    /// offset, relative to the selection's first atom.
    Unique { offset: usize },
    /// More than one atom has the name.
    Multiple,
}

/// Exact equality of two strings, decided character by character.
fn str_eq(a: &str, b: &str) -> (r: bool)
    ensures
        r == (a@ == b@),
{
    let n = a.unicode_len();
    if n != b.unicode_len() {
        return false;
    }
    let mut i: usize = 0;
    while i < n
        invariant
            i <= n,
            n == a@.len(),
            n == b@.len(),
            forall|k: int| 0 <= k < i ==> a@[k] == b@[k],
        decreases n - i,
    {
        if a.get_char(i) != b.get_char(i) {
            return false;
        }
        i = i + 1;
    }
    proof {
        assert(a@ =~= b@);
    }
    true
}

/// Evaluates the sub-selection "atom named `name`" within `sel` and, when it
/// resolves to exactly one atom, that atom's selection-local offset.
pub fn find_unique(sel: &Selection, name: &str) -> (m: NameMatch)
    requires
        sel.wf(),
    ensures
        (m is Missing <==> count_matches(sel.atoms@, name@) == 0),
        (m is Multiple <==> count_matches(sel.atoms@, name@) > 1),
        m matches NameMatch::Unique { offset } ==> count_matches(sel.atoms@, name@) == 1 && offset
            as int == offset_of(*sel, name@),
{
    let n = sel.atoms.len();
    let mut count: usize = 0;
    let mut first: usize = 0;
    let mut found = false;
    let mut j: usize = 0;
    proof {
        assert(sel.atoms@.skip(0) =~= sel.atoms@);
    }
    while j < n
        invariant
            j <= n,
            n == sel.atoms@.len(),
            count <= j,
            count_matches(sel.atoms@, name@) == count + count_matches(
                sel.atoms@.skip(j as int),
                name@,
            ),
            found <==> count > 0,
            found ==> first < j && sel.atoms@[first as int].name@ == name@,
            forall|k: int| 0 <= k < j && !(found && first <= k) ==> #[trigger] sel.atoms@[k].name@ != name@,
        decreases n - j,
    {
        proof {
            assert(sel.atoms@.skip(j as int).drop_first() =~= sel.atoms@.skip(j as int + 1));
            assert(sel.atoms@.skip(j as int)[0] == sel.atoms@[j as int]);
        }
        if str_eq(sel.atoms[j].name.as_str(), name) {
            if !found {
                found = true;
                first = j;
            }
            count = count + 1;
        }
        j = j + 1;
    }
    proof {
        assert(sel.atoms@.skip(n as int) =~= Seq::<SelAtom>::empty());
    }
    if count == 0 {
        NameMatch::Missing
    } else if count > 1 {
        NameMatch::Multiple
    } else {
        proof {
            lemma_match_pos_at(sel.atoms@, name@, first as int);
        }
        let offset = sel.atoms[first].index - sel.atoms[0].index;
        NameMatch::Unique { offset }
    }
}

} // verus!
