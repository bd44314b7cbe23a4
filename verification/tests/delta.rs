use ot::{
    Attributes, Data, Delete, Delta, Insert, OTError, Operation, OperationBuilder, OperationScope,
    OperationTransformable, Position, Retain,
};

#[derive(Debug, Clone, Default, PartialEq, Eq)]
struct Text(String);

impl Data for Text {
    type Unit = char;

    fn units(&self) -> vstd::seq::Seq<char> {
        unreachable!()
    }

    fn lemma_clone(_: &Self, _: &Self) {}

    fn lemma_default(_: &Self) {}

    fn len(&self) -> usize {
        self.0.chars().count()
    }

    fn is_empty(&self) -> bool {
        self.0.is_empty()
    }

    fn merge(&mut self, other: Self) {
        self.0.push_str(&other.0);
    }

    fn truncate_before(&self, index: usize) -> Self {
        Text(self.0.chars().take(index).collect())
    }

    fn truncate_after(&self, index: usize) -> Self {
        Text(self.0.chars().skip(index).collect())
    }
}

/// A formatting of one optional colour: a later colour replaces an earlier.
/// Colour 255 cannot be composed onto another colour.
#[derive(Debug, Clone, Default, PartialEq, Eq)]
struct Colour(Option<u8>);

impl OperationTransformable for Colour {
    type Model = Option<u8>;

    fn model(&self) -> Option<u8> {
        self.0
    }

    fn well_formed(&self) -> bool {
        true
    }

    fn transform_fits(&self, _: &Self) -> bool {
        true
    }

    fn compose_model(a: Option<u8>, b: Option<u8>) -> Result<Option<u8>, OTError> {
        Ok(b.or(a))
    }

    fn transform_model(
        a: Option<u8>,
        b: Option<u8>,
    ) -> Result<(Option<u8>, Option<u8>), OTError> {
        Ok((a, if a.is_some() { None } else { b }))
    }

    fn invert_model(a: Option<u8>, _: Option<u8>) -> Option<u8> {
        a
    }

    fn compose(&self, other: &Self) -> Result<Self, OTError> {
        if other.0 == Some(255) && self.0.is_some() {
            return Err(OTError::IncompatibleOperationType("colour", "locked"));
        }
        Ok(Colour(other.0.or(self.0)))
    }

    fn transform(&self, other: &Self) -> Result<(Self, Self), OTError> {
        Ok((self.clone(), Colour(if self.0.is_some() { None } else { other.0 })))
    }

    fn invert(&self, other: &Self) -> Self {
        let _ = other;
        Colour(None)
    }
}

impl Attributes for Colour {
    fn is_empty_model(m: Option<u8>) -> bool {
        m.is_none()
    }

    fn remove_empty_model(m: Option<u8>) -> Option<u8> {
        m
    }

    fn extend_model(m: Option<u8>, other: Option<u8>) -> Option<u8> {
        other.or(m)
    }

    fn default_model() -> Option<u8> {
        None
    }

    fn lemma_always_fit(_: &Self, _: &Self) {}

    fn lemma_clone(_: &Self, _: &Self) {}

    fn lemma_default(_: &Self) {}

    fn is_empty(&self) -> bool {
        self.0.is_none()
    }

    fn remove_empty(&mut self) {}

    fn extend_other(&mut self, other: &Self) {
        if other.0.is_some() {
            self.0 = other.0;
        }
    }
}

type TextDelta = Delta<Text, Colour>;

fn text(s: &str) -> Text {
    Text(s.to_string())
}

fn plain() -> Colour {
    Colour(None)
}

const S: OperationScope = OperationScope::Row;

fn shape(delta: &TextDelta) -> Vec<(char, OperationScope, usize, String)> {
    let mut out = Vec::new();
    for op in delta.ops.iter() {
        out.push(match op {
            Operation::Delete(s, d) => ('d', *s, d.0, String::new()),
            Operation::Retain(s, r) => ('r', *s, r.n, String::new()),
            Operation::Insert(s, i) => ('i', *s, i.data.len(), i.data.0.clone()),
        });
    }
    out
}

fn colour(c: u8) -> Colour {
    Colour(Some(c))
}

const T: OperationScope = OperationScope::Column;

fn del(d: &mut TextDelta, scope: OperationScope, n: usize) {
    assert!(d.delete(scope, &Delete(n)).is_ok());
}

fn ret(d: &mut TextDelta, scope: OperationScope, n: usize) {
    assert!(d.retain(scope, &Retain { n, attrs: plain() }).is_ok());
}

fn ret_with(d: &mut TextDelta, scope: OperationScope, n: usize, attrs: Colour) {
    assert!(d.retain(scope, &Retain { n, attrs }).is_ok());
}

fn ins(d: &mut TextDelta, scope: OperationScope, s: &str) {
    assert!(d.insert(scope, &Insert { data: text(s), attrs: plain() }).is_ok());
}

fn ins_with(d: &mut TextDelta, scope: OperationScope, s: &str, attrs: Colour) {
    assert!(d.insert(scope, &Insert { data: text(s), attrs }).is_ok());
}

fn d(n: usize) -> (char, OperationScope, usize, String) {
    ('d', S, n, String::new())
}

fn r(n: usize) -> (char, OperationScope, usize, String) {
    ('r', S, n, String::new())
}

fn i(s: &str) -> (char, OperationScope, usize, String) {
    ('i', S, s.chars().count(), s.to_string())
}

fn colours(delta: &TextDelta) -> Vec<Option<u8>> {
    delta.ops.iter().map(|op| op.get_attrs().0).collect()
}

fn lengths(delta: &TextDelta, scope: OperationScope) -> (usize, usize) {
    for (s, l) in delta.len_map.iter() {
        if *s == scope {
            return (l.base_len, l.target_len);
        }
    }
    (0, 0)
}

/// What a delta of one scope does to a document.
fn apply(delta: &TextDelta, doc: &str) -> String {
    let doc: Vec<char> = doc.chars().collect();
    let mut at = 0;
    let mut out = String::new();
    for op in delta.ops.iter() {
        match op {
            Operation::Delete(_, d) => at += d.0,
            Operation::Retain(_, r) => {
                out.extend(doc[at..at + r.n].iter());
                at += r.n;
            }
            Operation::Insert(_, i) => out.push_str(&i.data.0),
        }
    }
    assert_eq!(at, doc.len());
    out
}

fn kind_err(e: &OTError) -> String {
    format!("{:?}", e)
}

#[test]
fn compose_retain_insert_with_delete() {
    let mut d1 = TextDelta::default();
    ret(&mut d1, S, 1);
    ins(&mut d1, S, "X");
    ret(&mut d1, S, 2);
    let mut d2 = TextDelta::default();
    del(&mut d2, S, 1);
    ret(&mut d2, S, 3);
    let c = d1.compose(&d2).unwrap();
    assert_eq!(shape(&c), vec![i("X"), d(1), r(2)]);
    assert_eq!(apply(&d1, "ABC"), "AXBC");
    assert_eq!(apply(&d2, "AXBC"), "XBC");
    assert_eq!(apply(&c, "ABC"), "XBC");
    assert_eq!(lengths(&c, S), (3, 3));
}

#[test]
fn transform_insert_against_delete() {
    let mut a = TextDelta::default();
    ins(&mut a, S, "Z");
    ret(&mut a, S, 5);
    let mut b = TextDelta::default();
    ret(&mut b, S, 2);
    del(&mut b, S, 1);
    ret(&mut b, S, 2);
    let (a2, b2) = a.transform(&b).unwrap();
    assert_eq!(shape(&a2), vec![i("Z"), r(4)]);
    assert_eq!(shape(&b2), vec![r(3), d(1), r(2)]);
    let left = a.compose(&b2).unwrap();
    let right = b.compose(&a2).unwrap();
    assert_eq!(shape(&left), vec![i("Z"), r(2), d(1), r(2)]);
    assert_eq!(shape(&left), shape(&right));
    assert_eq!(colours(&left), colours(&right));
    assert_eq!(apply(&left, "abcde"), "Zabde");
}

#[test]
fn zero_length_calls_change_nothing() {
    let mut delta = TextDelta::default();
    del(&mut delta, S, 0);
    ret(&mut delta, S, 0);
    ins(&mut delta, S, "");
    assert!(delta.ops.is_empty());
    assert!(delta.len_map.is_empty());
    let zero: Operation<Text, Colour> = OperationBuilder::retain(S, 0).build();
    assert!(delta.add(&zero).is_ok());
    assert!(delta.ops.is_empty());
    assert!(delta.len_map.is_empty());
}

#[test]
fn zero_length_calls_keep_a_filled_delta() {
    let mut delta = TextDelta::default();
    ret(&mut delta, S, 2);
    del(&mut delta, S, 0);
    ret(&mut delta, T, 0);
    ins(&mut delta, S, "");
    assert_eq!(shape(&delta), vec![r(2)]);
    assert_eq!(delta.len_map.len(), 1);
    assert_eq!(lengths(&delta, S), (2, 2));
}

#[test]
fn compose_rejects_mismatched_lengths() {
    let mut a = TextDelta::default();
    ret(&mut a, S, 3);
    let mut b = TextDelta::default();
    ret(&mut b, S, 2);
    let e = a.compose(&b).unwrap_err();
    assert!(matches!(e, OTError::IncompatibleDeltaLength("target", "base")));
}

#[test]
fn compose_rejects_a_scope_missing_on_one_side() {
    let mut a = TextDelta::default();
    ret(&mut a, S, 1);
    ret(&mut a, T, 1);
    let mut b = TextDelta::default();
    ret(&mut b, S, 1);
    assert!(matches!(
        a.compose(&b).unwrap_err(),
        OTError::IncompatibleDeltaLength("target", "base")
    ));
    assert!(matches!(
        b.compose(&a).unwrap_err(),
        OTError::IncompatibleDeltaLength("target", "base")
    ));
}

#[test]
fn compose_takes_an_absent_scope_as_empty() {
    let mut a = TextDelta::default();
    del(&mut a, S, 2);
    let b = TextDelta::default();
    let c = a.compose(&b).unwrap();
    assert_eq!(shape(&c), vec![d(2)]);
    assert_eq!(lengths(&c, S), (2, 0));
}

#[test]
fn transform_rejects_mismatched_base_lengths() {
    let mut a = TextDelta::default();
    ret(&mut a, S, 3);
    let mut b = TextDelta::default();
    del(&mut b, S, 2);
    let e = a.transform(&b).unwrap_err();
    assert!(matches!(e, OTError::IncompatibleDeltaLength("base", "base")));
}

#[test]
fn compose_never_pairs_across_scopes() {
    let mut a = TextDelta::default();
    ret(&mut a, S, 1);
    ret(&mut a, T, 1);
    let mut b = TextDelta::default();
    ret(&mut b, T, 1);
    ret(&mut b, S, 1);
    match a.compose(&b).unwrap_err() {
        OTError::IncompatibleOperationScope(first, second) => {
            assert_eq!(first, S);
            assert_eq!(second, T);
        }
        e => panic!("{}", kind_err(&e)),
    }
}

#[test]
fn transform_never_pairs_across_scopes() {
    let cell = OperationScope::Cell(Position { x: 1, y: 2 });
    let other_cell = OperationScope::Cell(Position { x: 2, y: 1 });
    let mut a = TextDelta::default();
    del(&mut a, cell, 1);
    del(&mut a, other_cell, 1);
    let mut b = TextDelta::default();
    del(&mut b, other_cell, 1);
    del(&mut b, cell, 1);
    match a.transform(&b).unwrap_err() {
        OTError::IncompatibleOperationScope(first, second) => {
            assert_eq!(first, cell);
            assert_eq!(second, other_cell);
        }
        e => panic!("{}", kind_err(&e)),
    }
}

#[test]
fn walk_reports_the_delta_that_ran_out() {
    let mut long = TextDelta::default();
    ret(&mut long, S, 2);
    long.len_map.clear();
    let empty = TextDelta::default();
    assert!(matches!(
        long.compose(&empty).unwrap_err(),
        OTError::IncompatibleOperationLength("second")
    ));
    let mut long = TextDelta::default();
    del(&mut long, S, 2);
    long.len_map.clear();
    assert!(matches!(
        empty.compose(&long).unwrap_err(),
        OTError::IncompatibleOperationLength("first")
    ));
    assert!(matches!(
        long.transform(&empty).unwrap_err(),
        OTError::IncompatibleOperationLength("second")
    ));
    assert!(matches!(
        empty.transform(&long).unwrap_err(),
        OTError::IncompatibleOperationLength("first")
    ));
}

#[test]
fn deletes_coalesce() {
    let mut delta = TextDelta::default();
    del(&mut delta, S, 2);
    del(&mut delta, S, 3);
    assert_eq!(shape(&delta), vec![d(5)]);
    assert_eq!(lengths(&delta, S), (5, 0));
    del(&mut delta, T, 1);
    assert_eq!(shape(&delta), vec![d(5), ('d', T, 1, String::new())]);
    assert_eq!(lengths(&delta, T), (1, 0));
}

#[test]
fn retains_coalesce_and_keep_the_first_formatting() {
    let mut delta = TextDelta::default();
    ret_with(&mut delta, S, 2, colour(1));
    ret_with(&mut delta, S, 3, colour(2));
    assert_eq!(shape(&delta), vec![r(5)]);
    assert_eq!(colours(&delta), vec![Some(1)]);
    assert_eq!(lengths(&delta, S), (5, 5));
}

#[test]
fn inserts_coalesce() {
    let mut delta = TextDelta::default();
    ins_with(&mut delta, S, "ab", colour(1));
    ins_with(&mut delta, S, "cd", colour(2));
    assert_eq!(shape(&delta), vec![i("abcd")]);
    assert_eq!(colours(&delta), vec![Some(1)]);
    assert_eq!(lengths(&delta, S), (0, 4));
    ins(&mut delta, T, "e");
    assert_eq!(shape(&delta), vec![i("abcd"), ('i', T, 1, "e".to_string())]);
}

#[test]
fn no_neighbours_of_one_kind_and_scope() {
    let mut delta = TextDelta::default();
    ret(&mut delta, S, 1);
    ret(&mut delta, S, 1);
    ins(&mut delta, S, "a");
    ins(&mut delta, S, "b");
    del(&mut delta, S, 1);
    del(&mut delta, S, 1);
    ins(&mut delta, S, "c");
    ret(&mut delta, S, 0);
    ret(&mut delta, S, 4);
    assert_eq!(shape(&delta), vec![r(2), i("abc"), d(2), r(4)]);
    let s = shape(&delta);
    for w in s.windows(2) {
        assert!(!(w[0].0 == w[1].0 && w[0].1 == w[1].1));
    }
    assert!(s.iter().all(|op| op.2 > 0));
    assert_eq!(lengths(&delta, S), (8, 9));
}

#[test]
fn insert_after_delete_goes_before_it() {
    let mut delta = TextDelta::default();
    ret(&mut delta, S, 1);
    del(&mut delta, S, 2);
    ins(&mut delta, S, "x");
    assert_eq!(shape(&delta), vec![r(1), i("x"), d(2)]);
}

#[test]
fn insert_joins_an_insert_before_the_last_delete() {
    let mut delta = TextDelta::default();
    ins(&mut delta, S, "x");
    del(&mut delta, T, 2);
    ins(&mut delta, S, "y");
    assert_eq!(shape(&delta), vec![i("xy"), ('d', T, 2, String::new())]);
}

#[test]
fn insert_goes_before_a_delete_of_another_scope() {
    let mut delta = TextDelta::default();
    ins(&mut delta, T, "x");
    del(&mut delta, S, 2);
    ins(&mut delta, S, "y");
    assert_eq!(shape(&delta), vec![('i', T, 1, "x".to_string()), i("y"), d(2)]);
}

#[test]
fn add_dispatches_on_the_kind() {
    let mut delta = TextDelta::default();
    let op: Operation<Text, Colour> = OperationBuilder::delete(S, 2).build();
    delta.add(&op).unwrap();
    let op: Operation<Text, Colour> = OperationBuilder::insert(S, text("ab")).build();
    delta.add(&op).unwrap();
    let op: Operation<Text, Colour> = OperationBuilder::retain(S, 3).attrs(colour(4)).build();
    delta.add(&op).unwrap();
    assert_eq!(shape(&delta), vec![i("ab"), d(2), r(3)]);
    assert_eq!(colours(&delta), vec![None, None, Some(4)]);
    assert_eq!(lengths(&delta, S), (5, 5));
}

#[test]
fn builder_builds_each_kind() {
    let op: Operation<Text, Colour> = OperationBuilder::delete(S, 3).attrs(colour(1)).build();
    assert!(matches!(&op, Operation::Delete(s, Delete(3)) if *s == S));
    assert_eq!(op.len(), 3);
    assert_eq!(op.get_scope(), S);
    assert_eq!(op.get_data(), Text::default());
    assert_eq!(op.get_attrs(), plain());
    assert!(!op.has_attrs());
    assert_eq!(op.kind_name(), "Delete");

    let op: Operation<Text, Colour> = OperationBuilder::retain(T, 4).build();
    assert!(matches!(&op, Operation::Retain(s, r) if *s == T && r.n == 4 && r.attrs == plain()));
    assert!(!op.has_attrs());
    let op: Operation<Text, Colour> = OperationBuilder::retain(T, 4).attrs(colour(7)).build();
    assert_eq!(op.len(), 4);
    assert_eq!(op.get_scope(), T);
    assert_eq!(op.get_data(), Text::default());
    assert_eq!(op.get_attrs(), colour(7));
    assert!(op.has_attrs());
    assert_eq!(op.kind_name(), "Retain");

    let cell = OperationScope::Cell(Position { x: 3, y: 9 });
    let op: Operation<Text, Colour> = OperationBuilder::insert(cell, text("héé")).build();
    assert_eq!(op.get_attrs(), plain());
    let op: Operation<Text, Colour> =
        OperationBuilder::insert(cell, text("héé")).attrs(colour(2)).build();
    assert_eq!(op.len(), 3);
    assert_eq!(op.get_scope(), cell);
    assert_eq!(op.get_data(), text("héé"));
    assert_eq!(op.get_attrs(), colour(2));
    assert!(op.has_attrs());
    assert_eq!(op.kind_name(), "Insert");
}

#[test]
fn builder_filters_nothing() {
    let op: Operation<Text, Colour> = OperationBuilder::insert(S, text("")).build();
    assert_eq!(op.len(), 0);
    let op: Operation<Text, Colour> = OperationBuilder::delete(S, 0).build();
    assert_eq!(op.len(), 0);
}

#[test]
fn operation_clone_keeps_everything() {
    let op: Operation<Text, Colour> =
        OperationBuilder::insert(S, text("ab")).attrs(colour(2)).build();
    let copy = op.clone();
    assert_eq!(copy.get_data(), text("ab"));
    assert_eq!(copy.get_attrs(), colour(2));
    assert_eq!(copy.get_scope(), S);
}

#[test]
fn compose_with_retains_gives_the_delta_back() {
    let mut a = TextDelta::default();
    ret_with(&mut a, S, 2, colour(3));
    ins_with(&mut a, S, "xy", colour(4));
    del(&mut a, S, 3);
    ret(&mut a, S, 1);
    let mut id = TextDelta::default();
    ret(&mut id, S, 5);
    let c = a.compose(&id).unwrap();
    assert_eq!(shape(&c), shape(&a));
    assert_eq!(shape(&c), vec![r(2), i("xy"), d(3), r(1)]);
    assert_eq!(colours(&c), colours(&a));
    assert_eq!(lengths(&c, S), lengths(&a, S));
}

#[test]
fn compose_is_associative() {
    let mut a = TextDelta::default();
    ret(&mut a, S, 1);
    ins(&mut a, S, "xy");
    del(&mut a, S, 1);
    ret(&mut a, S, 2);
    let mut b = TextDelta::default();
    del(&mut b, S, 2);
    ret(&mut b, S, 1);
    ins(&mut b, S, "q");
    ret(&mut b, S, 2);
    let mut c = TextDelta::default();
    ins(&mut c, S, "w");
    ret(&mut c, S, 2);
    del(&mut c, S, 1);
    ret(&mut c, S, 1);
    let left = a.compose(&b).unwrap().compose(&c).unwrap();
    let right = a.compose(&b.compose(&c).unwrap()).unwrap();
    assert_eq!(shape(&left), shape(&right));
    assert_eq!(shape(&left), vec![i("wyq"), d(3), r(1)]);
    assert_eq!(apply(&a, "0123"), "0xy23");
    assert_eq!(apply(&b, "0xy23"), "yq23");
    assert_eq!(apply(&c, "yq23"), "wyq3");
    assert_eq!(apply(&left, "0123"), "wyq3");
}

#[test]
fn compose_splits_runs() {
    let mut a = TextDelta::default();
    ins(&mut a, S, "abcdef");
    let mut b = TextDelta::default();
    ret(&mut b, S, 2);
    del(&mut b, S, 2);
    ret(&mut b, S, 2);
    let c = a.compose(&b).unwrap();
    assert_eq!(shape(&c), vec![i("abef")]);
    let mut a = TextDelta::default();
    ret(&mut a, S, 5);
    let mut b = TextDelta::default();
    del(&mut b, S, 2);
    ret(&mut b, S, 1);
    del(&mut b, S, 2);
    let c = a.compose(&b).unwrap();
    assert_eq!(shape(&c), vec![d(2), r(1), d(2)]);
    assert_eq!(apply(&c, "abcde"), "c");
}

#[test]
fn compose_composes_formatting() {
    let mut a = TextDelta::default();
    ret_with(&mut a, S, 2, colour(1));
    ins_with(&mut a, S, "ab", colour(2));
    let mut b = TextDelta::default();
    ret(&mut b, S, 2);
    ret_with(&mut b, T, 0, colour(9));
    ins(&mut b, S, "n");
    ret_with(&mut b, S, 1, colour(5));
    del(&mut b, S, 1);
    let c = a.compose(&b).unwrap();
    assert_eq!(shape(&c), vec![r(2), i("na")]);
    assert_eq!(colours(&c), vec![Some(1), None]);
}

#[test]
fn compose_composes_formatting_of_split_inserts() {
    let mut a = TextDelta::default();
    ins_with(&mut a, S, "ab", colour(2));
    ret_with(&mut a, S, 1, colour(1));
    let mut b = TextDelta::default();
    ret_with(&mut b, S, 1, colour(5));
    del(&mut b, S, 1);
    ret_with(&mut b, S, 1, colour(6));
    let c = a.compose(&b).unwrap();
    assert_eq!(shape(&c), vec![i("a"), r(1)]);
    assert_eq!(colours(&c), vec![Some(5), Some(6)]);
}

#[test]
fn compose_hands_on_a_failure_of_the_formatting() {
    let mut a = TextDelta::default();
    ret_with(&mut a, S, 2, colour(1));
    let mut b = TextDelta::default();
    ret_with(&mut b, S, 2, colour(255));
    assert!(matches!(
        a.compose(&b).unwrap_err(),
        OTError::IncompatibleOperationType("colour", "locked")
    ));
}

#[test]
fn transform_puts_the_first_insert_first() {
    let mut a = TextDelta::default();
    ret(&mut a, S, 1);
    ins_with(&mut a, S, "A", colour(1));
    ret(&mut a, S, 1);
    let mut b = TextDelta::default();
    ret(&mut b, S, 1);
    ins_with(&mut b, S, "B", colour(2));
    ret(&mut b, S, 1);
    let (a2, b2) = a.transform(&b).unwrap();
    assert_eq!(shape(&a2), vec![r(1), i("A"), r(2)]);
    assert_eq!(shape(&b2), vec![r(2), i("B"), r(1)]);
    assert_eq!(colours(&a2), vec![None, Some(1), Some(2)]);
    assert_eq!(colours(&b2), vec![None, Some(2), None]);
    assert_eq!(apply(&a.compose(&b2).unwrap(), "xy"), "xABy");
    assert_eq!(apply(&b.compose(&a2).unwrap(), "xy"), "xABy");
}

#[test]
fn transform_of_two_deletes() {
    let mut a = TextDelta::default();
    del(&mut a, S, 3);
    ret(&mut a, S, 2);
    let mut b = TextDelta::default();
    ret(&mut b, S, 1);
    del(&mut b, S, 3);
    ret(&mut b, S, 1);
    let (a2, b2) = a.transform(&b).unwrap();
    assert_eq!(shape(&a2), vec![d(1), r(1)]);
    assert_eq!(shape(&b2), vec![d(1), r(1)]);
    let left = a.compose(&b2).unwrap();
    let right = b.compose(&a2).unwrap();
    assert_eq!(shape(&left), vec![d(4), r(1)]);
    assert_eq!(shape(&left), shape(&right));
    assert_eq!(apply(&left, "abcde"), "e");
}

#[test]
fn transform_commutes() {
    let mut a = TextDelta::default();
    ret(&mut a, S, 2);
    ins(&mut a, S, "aa");
    del(&mut a, S, 2);
    ret(&mut a, S, 1);
    ins(&mut a, S, "z");
    let mut b = TextDelta::default();
    del(&mut b, S, 1);
    ret(&mut b, S, 2);
    ins(&mut b, S, "bb");
    ret(&mut b, S, 2);
    let (a2, b2) = a.transform(&b).unwrap();
    let left = a.compose(&b2).unwrap();
    let right = b.compose(&a2).unwrap();
    assert_eq!(shape(&left), shape(&right));
    assert_eq!(shape(&left), vec![d(1), r(1), i("aabb"), d(2), r(1), i("z")]);
    assert_eq!(apply(&left, "01234"), "1aabb4z");
}

#[test]
fn transform_uses_the_first_formatting_on_both_sides() {
    let mut a = TextDelta::default();
    ret_with(&mut a, S, 2, colour(1));
    let mut b = TextDelta::default();
    ret_with(&mut b, S, 2, colour(2));
    let (a2, b2) = a.transform(&b).unwrap();
    assert_eq!(shape(&a2), vec![r(2)]);
    assert_eq!(shape(&b2), vec![r(2)]);
    assert_eq!(colours(&a2), vec![Some(1)]);
    assert_eq!(colours(&b2), vec![Some(1)]);
}

#[test]
fn invert_undoes_inserts() {
    let mut a = TextDelta::default();
    ins(&mut a, S, "abc");
    let mut b = TextDelta::default();
    ret(&mut b, S, 2);
    ins(&mut b, S, "x");
    ret(&mut b, S, 1);
    let new_a = a.compose(&b).unwrap();
    assert_eq!(shape(&new_a), vec![i("abxc")]);
    let undo = b.invert(&new_a);
    assert_eq!(shape(&undo), vec![r(2), d(1), r(1)]);
    let back = new_a.compose(&undo).unwrap();
    assert_eq!(shape(&back), shape(&a));
    assert_eq!(colours(&back), colours(&a));
}

#[test]
fn invert_leaves_out_what_was_deleted() {
    let mut b = TextDelta::default();
    ret_with(&mut b, S, 1, colour(3));
    del(&mut b, S, 2);
    ins(&mut b, S, "xy");
    ret(&mut b, S, 1);
    let mut new_a = TextDelta::default();
    ins(&mut new_a, S, "a");
    del(&mut new_a, S, 2);
    ins(&mut new_a, S, "xyd");
    let undo = b.invert(&new_a);
    assert_eq!(shape(&undo), vec![r(1), d(2), r(1)]);
    assert_eq!(colours(&undo), vec![None, None, None]);
    assert_eq!(lengths(&undo, S), (4, 2));
}

#[test]
fn invert_goes_on_where_the_other_delta_ends() {
    let mut b = TextDelta::default();
    ins(&mut b, S, "ab");
    ret(&mut b, S, 2);
    let mut short = TextDelta::default();
    ins(&mut short, S, "a");
    let undo = b.invert(&short);
    assert_eq!(shape(&undo), vec![d(2), r(2)]);
}

#[test]
fn compose_walks_two_scopes() {
    let mut a = TextDelta::default();
    ret(&mut a, S, 1);
    ins(&mut a, T, "x");
    del(&mut a, S, 1);
    let mut b = TextDelta::default();
    ret(&mut b, S, 1);
    ret_with(&mut b, T, 1, colour(3));
    let c = a.compose(&b).unwrap();
    assert_eq!(shape(&c), vec![r(1), ('i', T, 1, "x".to_string()), d(1)]);
    assert_eq!(colours(&c), vec![None, Some(3), None]);
    assert_eq!(lengths(&c, S), (2, 1));
    assert_eq!(lengths(&c, T), (0, 1));
    assert_eq!(c.len_map.len(), 2);
}

#[test]
fn transform_walks_two_scopes() {
    let mut a = TextDelta::default();
    ret(&mut a, S, 2);
    del(&mut a, T, 1);
    let mut b = TextDelta::default();
    del(&mut b, S, 2);
    ret(&mut b, T, 1);
    let (a2, b2) = a.transform(&b).unwrap();
    assert_eq!(shape(&a2), vec![('d', T, 1, String::new())]);
    assert_eq!(shape(&b2), vec![d(2)]);
    let left = a.compose(&b2).unwrap();
    let right = b.compose(&a2).unwrap();
    assert_eq!(shape(&left), vec![d(2), ('d', T, 1, String::new())]);
    assert_eq!(shape(&left), shape(&right));
}

#[test]
fn compose_with_retains_moves_an_insert_that_follows_a_delete() {
    let cell = OperationScope::Cell(Position { x: 0, y: 0 });
    let mut a = TextDelta::default();
    del(&mut a, S, 1);
    del(&mut a, T, 1);
    ins(&mut a, cell, "x");
    assert_eq!(
        shape(&a),
        vec![d(1), ('i', cell, 1, "x".to_string()), ('d', T, 1, String::new())]
    );
    let mut id = TextDelta::default();
    ret(&mut id, cell, 1);
    let c = a.compose(&id).unwrap();
    assert_eq!(
        shape(&c),
        vec![('i', cell, 1, "x".to_string()), d(1), ('d', T, 1, String::new())]
    );
}

#[test]
fn compose_across_scopes_depends_on_the_grouping() {
    let cell = OperationScope::Cell(Position { x: 0, y: 0 });
    let mut a = TextDelta::default();
    del(&mut a, S, 1);
    ret(&mut a, T, 1);
    let mut b = TextDelta::default();
    del(&mut b, T, 1);
    let mut c = TextDelta::default();
    ins(&mut c, cell, "x");
    let left = a.compose(&b).unwrap().compose(&c).unwrap();
    let right = a.compose(&b.compose(&c).unwrap()).unwrap();
    let x = ('i', cell, 1, "x".to_string());
    let dt = ('d', T, 1, String::new());
    assert_eq!(shape(&left), vec![d(1), x.clone(), dt.clone()]);
    assert_eq!(shape(&right), vec![x, d(1), dt]);
}

#[test]
fn compose_with_mixed_formatting_depends_on_the_grouping() {
    let mut a = TextDelta::default();
    ret_with(&mut a, S, 1, colour(1));
    ins(&mut a, S, "x");
    ret_with(&mut a, S, 1, colour(2));
    let mut b = TextDelta::default();
    ret(&mut b, S, 1);
    del(&mut b, S, 1);
    ret(&mut b, S, 1);
    let mut c = TextDelta::default();
    ret(&mut c, S, 1);
    ins(&mut c, S, "y");
    ret(&mut c, S, 1);
    let left = a.compose(&b).unwrap().compose(&c).unwrap();
    let right = a.compose(&b.compose(&c).unwrap()).unwrap();
    assert_eq!(shape(&left), vec![r(1), i("y"), r(1)]);
    assert_eq!(shape(&left), shape(&right));
    assert_eq!(colours(&left), vec![Some(1), None, Some(1)]);
    assert_eq!(colours(&right), vec![Some(1), None, Some(2)]);
}

#[test]
fn transform_across_scopes_need_not_converge() {
    let cell = OperationScope::Cell(Position { x: 0, y: 0 });
    let mut a = TextDelta::default();
    del(&mut a, S, 1);
    del(&mut a, T, 1);
    let mut b = TextDelta::default();
    ins(&mut b, cell, "x");
    ret(&mut b, S, 1);
    ret(&mut b, T, 1);
    let (a2, b2) = a.transform(&b).unwrap();
    let left = a.compose(&b2).unwrap();
    let right = b.compose(&a2).unwrap();
    let x = ('i', cell, 1, "x".to_string());
    let dt = ('d', T, 1, String::new());
    assert_eq!(shape(&left), vec![d(1), x.clone(), dt.clone()]);
    assert_eq!(shape(&right), vec![x, d(1), dt]);
}

#[test]
fn a_new_delta_is_empty() {
    let delta = TextDelta::default();
    assert!(delta.ops.is_empty());
    assert!(delta.len_map.is_empty());
    assert_eq!(lengths(&delta, S), (0, 0));
    let zero = ot::DeltaLength::default();
    assert_eq!((zero.base_len, zero.target_len), (0, 0));
    let both = delta.compose(&TextDelta::default()).unwrap();
    assert!(both.ops.is_empty());
    let (left, right) = delta.transform(&TextDelta::default()).unwrap();
    assert!(left.ops.is_empty() && right.ops.is_empty());
    assert!(delta.invert(&TextDelta::default()).ops.is_empty());
}

#[test]
fn lengths_are_kept_by_scope() {
    let cell = OperationScope::Cell(Position { x: 4, y: 5 });
    let near = OperationScope::Cell(Position { x: 5, y: 4 });
    let mut delta = TextDelta::default();
    ret(&mut delta, cell, 3);
    ins(&mut delta, near, "ab");
    del(&mut delta, cell, 2);
    ins(&mut delta, OperationScope::Row, "c");
    del(&mut delta, OperationScope::Column, 7);
    assert_eq!(lengths(&delta, cell), (5, 3));
    assert_eq!(lengths(&delta, near), (0, 2));
    assert_eq!(lengths(&delta, OperationScope::Row), (0, 1));
    assert_eq!(lengths(&delta, OperationScope::Column), (7, 0));
    assert_eq!(delta.len_map.len(), 4);
}
