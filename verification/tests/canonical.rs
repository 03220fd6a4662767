use fdcover::fd::FD;
use fdcover::fdlist::FDList;
use fdcover::parse::ParseError;

fn fd(spec: &str) -> FD {
    FD::from(spec.to_string()).unwrap()
}

fn list(specs: &[&str]) -> FDList {
    let mut l = FDList::new();
    for s in specs {
        l.push(fd(s));
    }
    l
}

fn names(v: &[&str]) -> Vec<String> {
    v.iter().map(|s| s.to_string()).collect()
}

#[test]
fn scenario_transitive_member_removed() {
    let l = list(&["A->B", "B->C", "A->C"]);
    let c = l.canonical_cover();
    assert_eq!(c.list.len(), 2);
    assert_eq!(c.list[0].det, names(&["A"]));
    assert_eq!(c.list[0].dep, names(&["B"]));
    assert_eq!(c.list[1].det, names(&["B"]));
    assert_eq!(c.list[1].dep, names(&["C"]));
}

#[test]
fn scenario_decompose_then_merge() {
    let l = list(&["A->B,C"]);
    let c = l.canonical_cover();
    assert_eq!(c.list.len(), 1);
    assert_eq!(c.list[0].det, names(&["A"]));
    assert_eq!(c.list[0].dep, names(&["B", "C"]));
}

#[test]
fn scenario_extraneous_attribute() {
    let l = list(&["A,B->C", "A->B"]);
    let c = l.canonical_cover();
    assert_eq!(c.list.len(), 1);
    assert_eq!(c.list[0].det, names(&["A"]));
    assert_eq!(c.list[0].dep, names(&["B", "C"]));
}

#[test]
fn scenario_empty_input() {
    let l = FDList::new();
    let c = l.canonical_cover();
    assert_eq!(c.list.len(), 0);
}

#[test]
fn closure_contains_base() {
    let l = list(&["A->B", "B->C"]);
    let cl = l.closure(&names(&["A"]));
    assert_eq!(cl, names(&["A", "B", "C"]));
    // the base attributes stay, in order, at the front
    assert_eq!(&cl[..1], &names(&["A"])[..]);
    let cl2 = l.closure(&names(&["C"]));
    assert_eq!(cl2, names(&["C"]));
}

#[test]
fn closure_idempotent_on_example() {
    let l = list(&["A->B", "B->C", "D->E"]);
    let once = l.closure(&names(&["A", "D"]));
    let twice = l.closure(&once);
    assert_eq!(once, twice);
}

#[test]
fn closure_ignores_unreachable() {
    let l = list(&["A->B", "C->D"]);
    let cl = l.closure(&names(&["A"]));
    assert_eq!(cl, names(&["A", "B"]));
}

#[test]
fn decompose_is_lossless() {
    let f = fd("A,B->C,D");
    let d = f.decompose();
    assert_eq!(d.list.len(), 2);
    assert_eq!(d.list[0].det, names(&["A", "B"]));
    assert_eq!(d.list[0].dep, names(&["C"]));
    assert_eq!(d.list[1].det, names(&["A", "B"]));
    assert_eq!(d.list[1].dep, names(&["D"]));
}

#[test]
fn parse_splits_and_trims() {
    let f = fd(" a , b -> c ,d ");
    assert_eq!(f.det, names(&["a", "b"]));
    assert_eq!(f.dep, names(&["c", "d"]));
}

#[test]
fn parse_drops_duplicates_and_blanks() {
    let f = fd("a,,a,b->b,b");
    assert_eq!(f.det, names(&["a", "b"]));
    assert_eq!(f.dep, names(&["b"]));
}

#[test]
fn parse_splits_at_first_separator() {
    let f = fd("a->b->c");
    assert_eq!(f.det, names(&["a"]));
    assert_eq!(f.dep, names(&["b->c"]));
}

#[test]
fn parse_missing_separator() {
    assert!(matches!(
        FD::from("a,b".to_string()),
        Err(ParseError::MissingSeparator)
    ));
}

#[test]
fn parse_empty_determinant() {
    assert!(matches!(
        FD::from(" ->b".to_string()),
        Err(ParseError::EmptyDeterminant)
    ));
}

#[test]
fn parse_empty_dependent() {
    assert!(matches!(
        FD::from("a-> , ".to_string()),
        Err(ParseError::EmptyDependent)
    ));
}

#[test]
fn equality_is_set_equality() {
    let a = fd("a,b->c,d");
    let b = fd("b,a->d,c");
    let c = fd("a->c,d");
    assert!(a == b);
    assert!(a != c);
}

#[test]
fn push_skips_equal_members() {
    let mut l = FDList::new();
    l.push(fd("a,b->c"));
    l.push(fd("b,a->c"));
    assert_eq!(l.list.len(), 1);
    l.push(fd("a->c"));
    assert_eq!(l.list.len(), 2);
}

#[test]
fn all_except_removes_equal_members() {
    let l = list(&["a->b", "b->c", "c->d"]);
    let r = l.all_except(&fd("b->c"));
    assert_eq!(r.list.len(), 2);
    assert_eq!(r.list[0].det, names(&["a"]));
    assert_eq!(r.list[1].det, names(&["c"]));
}

#[test]
fn find_all_matches_determinant_sets() {
    let l = list(&["a,b->c", "b,a->d", "a->e"]);
    let found = l.find_all(&names(&["b", "a"]));
    assert_eq!(found.len(), 2);
    assert_eq!(found[0].dep, names(&["c"]));
    assert_eq!(found[1].dep, names(&["d"]));
}

#[test]
fn iter_walks_in_stored_order() {
    let l = list(&["a->b", "b->c"]);
    let dets: Vec<String> = l.iter().iter().map(|f| f.det[0].clone()).collect();
    assert_eq!(dets, names(&["a", "b"]));
}

#[test]
fn validity_requires_both_sides() {
    let mut f = FD::new();
    assert!(!f.is_valid());
    f.add_determinant("a".to_string());
    assert!(!f.is_valid());
    f.add_dependant("b".to_string());
    assert!(f.is_valid());
}

#[test]
fn attribute_insertion_is_idempotent() {
    let mut f = FD::new();
    f.add_determinant("a".to_string());
    f.add_determinant("a".to_string());
    f.add_determinant("b".to_string());
    f.add_dependant("c".to_string());
    f.add_dependant("c".to_string());
    assert_eq!(f.det, names(&["a", "b"]));
    assert_eq!(f.dep, names(&["c"]));
}

#[test]
fn recompose_merges_shared_determinants() {
    let l = list(&["a->b", "a->c", "d->e"]);
    let r = l.recompose();
    assert_eq!(r.list.len(), 2);
    assert_eq!(r.list[0].det, names(&["d"]));
    assert_eq!(r.list[0].dep, names(&["e"]));
    assert_eq!(r.list[1].det, names(&["a"]));
    assert_eq!(r.list[1].dep, names(&["b", "c"]));
}

#[test]
fn cover_of_larger_schema() {
    // A -> B,C ; B -> C ; A,B -> D: B is extraneous in A,B -> D via A -> B,
    // and A -> C is redundant via A -> B -> C.
    let l = list(&["A->B,C", "B->C", "A,B->D"]);
    let c = l.canonical_cover();
    assert_eq!(c.list.len(), 2);
    assert_eq!(c.list[0].det, names(&["B"]));
    assert_eq!(c.list[0].dep, names(&["C"]));
    assert_eq!(c.list[1].det, names(&["A"]));
    assert_eq!(c.list[1].dep, names(&["B", "D"]));
}

#[test]
fn cover_keeps_unrelated_members() {
    let l = list(&["a->b", "c->d"]);
    let c = l.canonical_cover();
    assert_eq!(c.list.len(), 2);
    assert_eq!(c.list[0].det, names(&["a"]));
    assert_eq!(c.list[0].dep, names(&["b"]));
    assert_eq!(c.list[1].det, names(&["c"]));
    assert_eq!(c.list[1].dep, names(&["d"]));
}
