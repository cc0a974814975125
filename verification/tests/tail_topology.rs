use membralysis::membrane::{LipidSpecies, LipidTail, TailError};
use membralysis::notation::{parse_bond_orders, split_tokens};
use membralysis::selection::{find_unique, NameMatch, SelAtom, Selection};

fn sel_of(pairs: &[(usize, &str)]) -> Selection {
    Selection {
        atoms: pairs
            .iter()
            .map(|&(index, name)| SelAtom {
                index,
                name: name.to_string(),
            })
            .collect(),
    }
}

#[test]
fn split_tokens_basic() {
    let toks = split_tokens("C1-C2=C3");
    assert_eq!(toks, vec!["C1".to_string(), "C2".to_string(), "C3".to_string()]);
}

#[test]
fn split_tokens_drops_empty_runs() {
    assert_eq!(split_tokens("C1--C2"), vec!["C1".to_string(), "C2".to_string()]);
    assert_eq!(split_tokens("-C1-"), vec!["C1".to_string()]);
    assert_eq!(split_tokens(""), Vec::<String>::new());
}

#[test]
fn bond_orders_marker_mapping() {
    assert_eq!(parse_bond_orders("A-B=C-D"), vec![1u8, 2, 1]);
    assert_eq!(parse_bond_orders("C1=C2"), vec![2u8]);
    assert_eq!(parse_bond_orders("C1"), Vec::<u8>::new());
}

#[test]
fn token_count_matches_offset_count() {
    let sel = sel_of(&[(0, "C1"), (1, "C2"), (2, "C3")]);
    let tail = LipidTail::from_tail_descr("C1-C2=C3", &sel).unwrap();
    assert_eq!(tail.c_offsets.len(), split_tokens("C1-C2=C3").len());
    assert_eq!(tail.c_offsets.len(), tail.bond_orders.len() + 1);
}

#[test]
fn scenario_three_carbons() {
    // C1, C2, C3 hold global indices 5, 6, 7; the whole-molecule selection
    // starts at C1, so the offsets are anchored at 0.
    let sel = sel_of(&[(5, "C1"), (6, "C2"), (7, "C3")]);
    let tail = LipidTail::from_tail_descr("C1-C2=C3", &sel).unwrap();
    assert_eq!(tail.c_offsets, vec![0, 1, 2]);
    assert_eq!(tail.bond_orders, vec![1u8, 2]);
}

#[test]
fn scenario_four_carbons() {
    let sel = sel_of(&[(10, "C1"), (11, "C2"), (12, "C3"), (13, "C4")]);
    let tail = LipidTail::from_tail_descr("C1=C2-C3-C4", &sel).unwrap();
    assert_eq!(tail.c_offsets.len(), 4);
    assert_eq!(tail.c_offsets, vec![0, 1, 2, 3]);
    assert_eq!(tail.bond_orders, vec![2u8, 1, 1]);
}

#[test]
fn offsets_relative_to_selection_start() {
    // The selection begins with a head-group atom, so the first carbon's
    // offset is its distance from the selection's first atom, not 0.
    let sel = sel_of(&[(20, "P"), (21, "C1"), (23, "C2")]);
    let tail = LipidTail::from_tail_descr("C1-C2", &sel).unwrap();
    assert_eq!(tail.c_offsets, vec![1, 3]);
    assert_eq!(tail.bond_orders, vec![1u8]);
}

#[test]
fn single_name_notation() {
    let sel = sel_of(&[(4, "C1"), (5, "C2")]);
    let tail = LipidTail::from_tail_descr("C1", &sel).unwrap();
    assert_eq!(tail.c_offsets, vec![0]);
    assert_eq!(tail.bond_orders, Vec::<u8>::new());
}

#[test]
fn missing_atom_is_rejected() {
    let sel = sel_of(&[(0, "C1"), (1, "C2")]);
    let err = LipidTail::from_tail_descr("C1-CX", &sel).unwrap_err();
    assert_eq!(err, TailError::AtomNotFound { name: "CX".to_string() });
}

#[test]
fn non_unique_atom_is_rejected() {
    let sel = sel_of(&[(0, "C1"), (1, "C2"), (2, "C2")]);
    let err = LipidTail::from_tail_descr("C1-C2", &sel).unwrap_err();
    assert_eq!(err, TailError::NonUniqueAtomName { name: "C2".to_string() });
}

#[test]
fn first_error_in_notation_order_wins() {
    // Both a missing name and a malformed marker pair: the missing name
    // comes first in notation order, so it decides.
    let sel = sel_of(&[(0, "C1"), (1, "C2")]);
    let err = LipidTail::from_tail_descr("CX--C2", &sel).unwrap_err();
    assert_eq!(err, TailError::AtomNotFound { name: "CX".to_string() });
}

#[test]
fn scenario_double_marker_malformed() {
    let sel = sel_of(&[(0, "C1"), (1, "C2")]);
    let err = LipidTail::from_tail_descr("C1--C2", &sel).unwrap_err();
    assert_eq!(err, TailError::MalformedTailNotation { n_names: 2, n_bonds: 2 });
}

#[test]
fn leading_and_trailing_markers_malformed() {
    let sel = sel_of(&[(0, "C1"), (1, "C2")]);
    let err = LipidTail::from_tail_descr("-C1-C2", &sel).unwrap_err();
    assert_eq!(err, TailError::MalformedTailNotation { n_names: 2, n_bonds: 2 });
    let err = LipidTail::from_tail_descr("C1-C2=", &sel).unwrap_err();
    assert_eq!(err, TailError::MalformedTailNotation { n_names: 2, n_bonds: 2 });
}

#[test]
fn empty_notation_malformed() {
    let sel = sel_of(&[(0, "C1")]);
    let err = LipidTail::from_tail_descr("", &sel).unwrap_err();
    assert_eq!(err, TailError::MalformedTailNotation { n_names: 0, n_bonds: 0 });
}

#[test]
fn resolution_is_idempotent() {
    let sel = sel_of(&[(5, "C1"), (6, "C2"), (7, "C3")]);
    let first = LipidTail::from_tail_descr("C1-C2=C3", &sel);
    let second = LipidTail::from_tail_descr("C1-C2=C3", &sel);
    assert_eq!(first, second);

    let first = LipidTail::from_tail_descr("C1--C2", &sel);
    let second = LipidTail::from_tail_descr("C1--C2", &sel);
    assert_eq!(first, second);
}

#[test]
fn find_unique_reports_offset() {
    let sel = sel_of(&[(8, "P"), (9, "C1"), (12, "C2")]);
    match find_unique(&sel, "C2") {
        NameMatch::Unique { offset } => assert_eq!(offset, 4),
        _ => panic!("expected a unique match"),
    }
    assert!(matches!(find_unique(&sel, "CX"), NameMatch::Missing));
    let dup = sel_of(&[(0, "C1"), (1, "C1")]);
    assert!(matches!(find_unique(&dup, "C1"), NameMatch::Multiple));
}

fn species_with(descrs: &[&str]) -> LipidSpecies {
    LipidSpecies {
        name: "POPC".to_string(),
        whole_sel_str: "resname POPC".to_string(),
        head_subsel_str: "name P N".to_string(),
        tail_subsel_str: "name C2* C3*".to_string(),
        surf_subsel_str: "name P".to_string(),
        tails_descr: descrs.iter().map(|d| d.to_string()).collect(),
    }
}

#[test]
fn resolve_tails_in_description_order() {
    let sel = sel_of(&[(0, "P"), (1, "C1"), (2, "C2"), (3, "D1"), (4, "D2")]);
    let species = species_with(&["C1-C2", "D1=D2"]);
    let tails = species.resolve_tails(&sel).unwrap();
    assert_eq!(tails.len(), 2);
    assert_eq!(tails[0].c_offsets, vec![1, 2]);
    assert_eq!(tails[0].bond_orders, vec![1u8]);
    assert_eq!(tails[1].c_offsets, vec![3, 4]);
    assert_eq!(tails[1].bond_orders, vec![2u8]);
}

#[test]
fn resolve_tails_fails_fast() {
    let sel = sel_of(&[(0, "C1"), (1, "C2")]);
    let species = species_with(&["C1-CX", "C1-C2"]);
    let err = species.resolve_tails(&sel).unwrap_err();
    assert_eq!(err, TailError::AtomNotFound { name: "CX".to_string() });

    let species = species_with(&["C1-C2", "C1--C2"]);
    let err = species.resolve_tails(&sel).unwrap_err();
    assert_eq!(err, TailError::MalformedTailNotation { n_names: 2, n_bonds: 2 });
}
