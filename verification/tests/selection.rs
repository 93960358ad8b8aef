use std::borrow::Cow;

use jsonb::error::Error;
use jsonb::number::Number;
use jsonb::path::ArrayIndex;
use jsonb::path::BinaryOperator;
use jsonb::path::Expr;
use jsonb::path::FilterFunc;
use jsonb::path::Index;
use jsonb::path::JsonPath;
use jsonb::path::Path;
use jsonb::path::PathValue;
use jsonb::raw::OwnedJsonb;
use jsonb::raw::RawJsonb;
use jsonb::selector::Mode;
use jsonb::selector::Selector;

const ARRAY: u32 = 0x8000_0000;
const OBJECT: u32 = 0x4000_0000;
const SCALAR: u32 = 0x2000_0000;

/// A JSON value to encode.
enum J {
    Null,
    Bool(bool),
    Int(i64),
    UInt(u64),
    Float(f64),
    Str(&'static str),
    Arr(Vec<J>),
    Obj(Vec<(&'static str, J)>),
}

/// The kind and the content of a value as an entry.
fn entry(value: &J) -> (u32, Vec<u8>) {
    match value {
        J::Null => (0x0000_0000, vec![]),
        J::Bool(true) => (0x4000_0000, vec![]),
        J::Bool(false) => (0x3000_0000, vec![]),
        J::Int(v) => {
            let mut bytes = vec![0x40];
            bytes.extend_from_slice(&v.to_be_bytes());
            (0x2000_0000, bytes)
        }
        J::UInt(v) => {
            let mut bytes = vec![0x50];
            if *v < 256 {
                bytes.push(*v as u8);
            } else {
                bytes.extend_from_slice(&v.to_be_bytes());
            }
            (0x2000_0000, bytes)
        }
        J::Float(v) => {
            let mut bytes = vec![0x60];
            bytes.extend_from_slice(&v.to_be_bytes());
            (0x2000_0000, bytes)
        }
        J::Str(s) => (0x1000_0000, s.as_bytes().to_vec()),
        J::Arr(_) | J::Obj(_) => (0x5000_0000, doc(value)),
    }
}

/// A value as a document.
fn doc(value: &J) -> Vec<u8> {
    let mut out = Vec::new();
    match value {
        J::Arr(values) => {
            let entries: Vec<(u32, Vec<u8>)> = values.iter().map(entry).collect();
            out.extend_from_slice(&(ARRAY | values.len() as u32).to_be_bytes());
            for (ty, bytes) in &entries {
                out.extend_from_slice(&(ty | bytes.len() as u32).to_be_bytes());
            }
            for (_, bytes) in &entries {
                out.extend_from_slice(bytes);
            }
        }
        J::Obj(members) => {
            let entries: Vec<(u32, Vec<u8>)> = members.iter().map(|m| entry(&m.1)).collect();
            out.extend_from_slice(&(OBJECT | members.len() as u32).to_be_bytes());
            for (key, _) in members {
                out.extend_from_slice(&(0x1000_0000 | key.len() as u32).to_be_bytes());
            }
            for (ty, bytes) in &entries {
                out.extend_from_slice(&(ty | bytes.len() as u32).to_be_bytes());
            }
            for (key, _) in members {
                out.extend_from_slice(key.as_bytes());
            }
            for (_, bytes) in &entries {
                out.extend_from_slice(bytes);
            }
        }
        _ => {
            let (ty, bytes) = entry(value);
            out.extend_from_slice(&SCALAR.to_be_bytes());
            out.extend_from_slice(&(ty | bytes.len() as u32).to_be_bytes());
            out.extend_from_slice(&bytes);
        }
    }
    out
}

/// The documents of several values.
fn docs(values: Vec<J>) -> Vec<Vec<u8>> {
    values.iter().map(doc).collect()
}

fn bytes_of(owned: Vec<OwnedJsonb>) -> Vec<Vec<u8>> {
    owned.into_iter().map(|o| o.data).collect()
}

/// What a path returns for a document.
fn run(paths: Vec<Path<'_>>, mode: Mode, data: &[u8]) -> Result<Vec<Vec<u8>>, Error> {
    let json_path = JsonPath { paths };
    let selector = Selector::new(&json_path, mode);
    selector.select(RawJsonb::new(data)).map(bytes_of)
}

/// What a path returns for a value in mode `All`.
fn all(paths: Vec<Path<'_>>, value: &J) -> Vec<Vec<u8>> {
    run(paths, Mode::All, &doc(value)).unwrap()
}

fn field(name: &str) -> Path<'_> {
    Path::DotField(Cow::Borrowed(name))
}

fn at(index: i32) -> ArrayIndex {
    ArrayIndex::Index(Index::Index(index))
}

fn last(index: i32) -> ArrayIndex {
    ArrayIndex::Index(Index::LastIndex(index))
}

fn op<'a>(op: BinaryOperator, left: Expr<'a>, right: Expr<'a>) -> Expr<'a> {
    Expr::BinaryOp { op, left: Box::new(left), right: Box::new(right) }
}

fn uint<'a>(value: u64) -> Expr<'a> {
    Expr::Value(Box::new(PathValue::Number(Number::UInt64(value))))
}

fn float<'a>(value: f64) -> Expr<'a> {
    Expr::Value(Box::new(PathValue::Number(Number::Float64(value.to_bits()))))
}

fn string(value: &str) -> Expr<'_> {
    Expr::Value(Box::new(PathValue::String(Cow::Borrowed(value))))
}

fn current<'a>(name: &'a str) -> Expr<'a> {
    Expr::Paths(vec![Path::Current, field(name)])
}

fn filter(expr: Expr<'_>) -> Path<'_> {
    Path::FilterExpr(Box::new(expr))
}

fn predicate(expr: Expr<'_>) -> Vec<Path<'_>> {
    vec![Path::Predicate(Box::new(expr))]
}

fn store() -> J {
    J::Obj(vec![
        (
            "book",
            J::Arr(vec![
                J::Obj(vec![
                    ("isbn", J::Str("0-553")),
                    ("price", J::Float(8.95)),
                    ("title", J::Str("Moby Dick")),
                ]),
                J::Obj(vec![("price", J::UInt(12)), ("title", J::Str("Sayings"))]),
                J::Obj(vec![("price", J::UInt(23)), ("title", J::Str("Sword"))]),
            ]),
        ),
        ("color", J::Str("red")),
        ("empty", J::Arr(vec![])),
        ("owner", J::Null),
    ])
}

#[test]
fn root_returns_the_document() {
    let data = doc(&store());
    for mode in [Mode::All, Mode::First, Mode::Mixed] {
        assert_eq!(run(vec![Path::Root], mode, &data), Ok(vec![data.clone()]));
    }
    assert_eq!(run(vec![], Mode::All, &data), Ok(vec![data.clone()]));
    assert_eq!(run(vec![Path::Root], Mode::Array, &data), Ok(docs(vec![J::Arr(vec![store()])])));
}

#[test]
fn fields_are_found_by_name() {
    let red = docs(vec![J::Str("red")]);
    assert_eq!(all(vec![Path::Root, field("color")], &store()), red);
    let colon = Path::ColonField(Cow::Owned("color".to_string()));
    assert_eq!(all(vec![Path::Root, colon], &store()), red);
    let object = Path::ObjectField(Cow::Borrowed("color"));
    assert_eq!(all(vec![Path::Root, object], &store()), red);
    assert_eq!(all(vec![Path::Root, field("owner")], &store()), docs(vec![J::Null]));
    // The same length as a key that is there.
    assert_eq!(all(vec![Path::Root, field("cocoa")], &store()), docs(vec![]));
    assert_eq!(all(vec![Path::Root, field("missing")], &store()), docs(vec![]));
    assert_eq!(all(vec![Path::Root, field("color"), field("x")], &store()), docs(vec![]));
    assert_eq!(all(vec![Path::Root, field("book"), field("x")], &store()), docs(vec![]));
    assert_eq!(all(vec![Path::Root, field("x")], &J::Obj(vec![])), docs(vec![]));
}

#[test]
fn names_need_not_be_ascii() {
    let value = J::Obj(vec![("gr\u{fc}n", J::UInt(1)), ("", J::UInt(2))]);
    assert_eq!(all(vec![field("gr\u{fc}n")], &value), docs(vec![J::UInt(1)]));
    assert_eq!(all(vec![field("")], &value), docs(vec![J::UInt(2)]));
}

#[test]
fn the_first_of_equal_keys_wins() {
    let value = J::Obj(vec![("a", J::UInt(1)), ("b", J::UInt(2)), ("a", J::UInt(3))]);
    assert_eq!(all(vec![field("a")], &value), docs(vec![J::UInt(1)]));
}

#[test]
fn dot_wildcard_returns_the_values_of_an_object() {
    let value = J::Obj(vec![
        ("a", J::Bool(true)),
        ("b", J::Arr(vec![J::UInt(1)])),
        ("c", J::Str("x")),
        ("d", J::Null),
    ]);
    assert_eq!(
        all(vec![Path::Root, Path::DotWildcard], &value),
        docs(vec![J::Bool(true), J::Arr(vec![J::UInt(1)]), J::Str("x"), J::Null])
    );
    assert_eq!(all(vec![Path::DotWildcard], &J::Arr(vec![J::UInt(1)])), docs(vec![]));
    assert_eq!(all(vec![Path::DotWildcard], &J::UInt(1)), docs(vec![]));
    assert_eq!(all(vec![Path::DotWildcard], &J::Obj(vec![])), docs(vec![]));
}

#[test]
fn bracket_wildcard_is_lax() {
    let values = || vec![J::UInt(1), J::Arr(vec![J::UInt(2)]), J::Obj(vec![])];
    assert_eq!(all(vec![Path::BracketWildcard], &J::Arr(values())), docs(values()));
    assert_eq!(all(vec![Path::BracketWildcard], &J::Arr(vec![])), docs(vec![]));
    // An object and a lone scalar count as an array of one.
    assert_eq!(all(vec![Path::BracketWildcard], &J::Obj(vec![])), docs(vec![J::Obj(vec![])]));
    assert_eq!(all(vec![Path::BracketWildcard], &J::UInt(7)), docs(vec![J::UInt(7)]));
    // So does a scalar inside an array.
    assert_eq!(
        all(vec![Path::BracketWildcard, Path::BracketWildcard], &J::Arr(values())),
        docs(vec![J::UInt(1), J::UInt(2), J::Obj(vec![])])
    );
}

fn ten() -> J {
    J::Arr((0..10).map(J::UInt).collect())
}

fn pick(indices: Vec<ArrayIndex>) -> Vec<Vec<u8>> {
    all(vec![Path::Root, Path::ArrayIndices(indices)], &ten())
}

fn slice(from: Index, to: Index) -> Vec<Vec<u8>> {
    pick(vec![ArrayIndex::Slice((from, to))])
}

#[test]
fn indices_pick_places() {
    assert_eq!(pick(vec![at(0)]), docs(vec![J::UInt(0)]));
    assert_eq!(pick(vec![at(9)]), docs(vec![J::UInt(9)]));
    assert_eq!(pick(vec![at(10)]), docs(vec![]));
    assert_eq!(pick(vec![at(-1)]), docs(vec![]));
    assert_eq!(pick(vec![last(0)]), docs(vec![J::UInt(9)]));
    assert_eq!(pick(vec![last(-1)]), docs(vec![J::UInt(8)]));
    assert_eq!(pick(vec![last(-9)]), docs(vec![J::UInt(0)]));
    assert_eq!(pick(vec![last(-10)]), docs(vec![]));
    assert_eq!(pick(vec![last(1)]), docs(vec![]));
    assert_eq!(pick(vec![last(i32::MIN)]), docs(vec![]));
    assert_eq!(pick(vec![]), docs(vec![]));
    // In the order of the indices, and as often as they say.
    assert_eq!(
        pick(vec![at(3), at(12), at(1), at(3)]),
        docs(vec![J::UInt(3), J::UInt(1), J::UInt(3)])
    );
    let none = vec![Path::ArrayIndices(vec![at(0)])];
    assert_eq!(all(none, &J::Obj(vec![("a", J::UInt(1))])), docs(vec![]));
    let none = vec![Path::ArrayIndices(vec![at(0), last(0)])];
    assert_eq!(all(none, &J::Arr(vec![])), docs(vec![]));
}

#[test]
fn slices_pick_ranges() {
    let two_to_four = docs(vec![J::UInt(2), J::UInt(3), J::UInt(4)]);
    assert_eq!(slice(Index::Index(2), Index::Index(4)), two_to_four);
    assert_eq!(slice(Index::LastIndex(-7), Index::LastIndex(-5)), two_to_four);
    assert_eq!(slice(Index::Index(-5), Index::Index(0)), docs(vec![J::UInt(0)]));
    assert_eq!(slice(Index::Index(8), Index::Index(99)), docs(vec![J::UInt(8), J::UInt(9)]));
    assert_eq!(slice(Index::Index(-5), Index::Index(99)), docs((0..10).map(J::UInt).collect()));
    assert_eq!(slice(Index::Index(4), Index::Index(2)), docs(vec![]));
    assert_eq!(slice(Index::Index(10), Index::Index(12)), docs(vec![]));
    assert_eq!(slice(Index::Index(-5), Index::Index(-1)), docs(vec![]));
    assert_eq!(slice(Index::Index(9), Index::LastIndex(0)), docs(vec![J::UInt(9)]));
}

#[test]
fn full_slice_is_the_wildcard() {
    assert_eq!(
        slice(Index::Index(0), Index::LastIndex(0)),
        all(vec![Path::Root, Path::BracketWildcard], &ten())
    );
}

fn titles() -> Vec<Path<'static>> {
    vec![Path::Root, field("book"), Path::BracketWildcard, field("title")]
}

#[test]
fn modes_shape_the_result() {
    let data = doc(&store());
    let found = || vec![J::Str("Moby Dick"), J::Str("Sayings"), J::Str("Sword")];
    assert_eq!(run(titles(), Mode::All, &data), Ok(docs(found())));
    assert_eq!(run(titles(), Mode::First, &data), Ok(docs(vec![J::Str("Moby Dick")])));
    assert_eq!(run(titles(), Mode::Array, &data), Ok(docs(vec![J::Arr(found())])));
    assert_eq!(run(titles(), Mode::Mixed, &data), Ok(docs(vec![J::Arr(found())])));
    let one = || vec![Path::Root, field("color")];
    assert_eq!(run(one(), Mode::First, &data), Ok(docs(vec![J::Str("red")])));
    assert_eq!(run(one(), Mode::Array, &data), Ok(docs(vec![J::Arr(vec![J::Str("red")])])));
    assert_eq!(run(one(), Mode::Mixed, &data), Ok(docs(vec![J::Str("red")])));
    let none = || vec![Path::Root, field("nothing")];
    assert_eq!(run(none(), Mode::All, &data), Ok(docs(vec![])));
    assert_eq!(run(none(), Mode::First, &data), Ok(docs(vec![])));
    assert_eq!(run(none(), Mode::Array, &data), Ok(docs(vec![J::Arr(vec![])])));
    assert_eq!(run(none(), Mode::Mixed, &data), Ok(docs(vec![])));
}

#[test]
fn returned_bytes_are_exact() {
    let data = doc(&J::Arr(vec![J::Str("hi"), J::Null]));
    assert_eq!(
        data,
        vec![0x80, 0, 0, 2, 0x10, 0, 0, 2, 0x00, 0, 0, 0, b'h', b'i']
    );
    assert_eq!(
        run(vec![Path::BracketWildcard], Mode::All, &data),
        Ok(vec![
            vec![0x20, 0, 0, 0, 0x10, 0, 0, 2, b'h', b'i'],
            vec![0x20, 0, 0, 0, 0x00, 0, 0, 0],
        ])
    );
    assert_eq!(
        run(vec![Path::ArrayIndices(vec![at(1), at(0)])], Mode::Array, &data),
        Ok(vec![vec![0x80, 0, 0, 2, 0x00, 0, 0, 0, 0x10, 0, 0, 2, b'h', b'i']])
    );
    assert_eq!(
        run(vec![Path::Root], Mode::Array, &[0x80, 0, 0, 0]),
        Ok(vec![vec![0x80, 0, 0, 1, 0x50, 0, 0, 4, 0x80, 0, 0, 0]])
    );
}

#[test]
fn an_array_gives_its_values_back() {
    let data = doc(&store());
    let paths = || vec![field("book"), Path::BracketWildcard, Path::DotWildcard];
    let separate = run(paths(), Mode::All, &data).unwrap();
    let together = run(paths(), Mode::Array, &data).unwrap();
    assert_eq!(separate.len(), 7);
    assert_eq!(together.len(), 1);
    let back = vec![Path::Root, Path::BracketWildcard];
    assert_eq!(run(back, Mode::All, &together[0]), Ok(separate));
}

#[test]
fn first_is_the_head_of_all() {
    let data = doc(&store());
    let every = run(titles(), Mode::All, &data).unwrap();
    assert_eq!(run(titles(), Mode::First, &data), Ok(every[0..1].to_vec()));
}

#[test]
fn paths_compose() {
    let books = all(vec![field("book")], &store());
    let book = run(vec![Path::ArrayIndices(vec![at(1)])], Mode::All, &books[0]).unwrap();
    let title = run(vec![field("title")], Mode::All, &book[0]).unwrap();
    assert_eq!(
        all(vec![field("book"), Path::ArrayIndices(vec![at(1)]), field("title")], &store()),
        title
    );
}

fn titles_where(expr: Expr<'_>) -> Vec<Vec<u8>> {
    let paths = vec![
        Path::Root,
        field("book"),
        Path::BracketWildcard,
        filter(expr),
        field("title"),
    ];
    all(paths, &store())
}

#[test]
fn filters_compare_numbers() {
    let cheap = docs(vec![J::Str("Moby Dick")]);
    let dear = docs(vec![J::Str("Sayings"), J::Str("Sword")]);
    assert_eq!(titles_where(op(BinaryOperator::Lt, current("price"), uint(10))), cheap);
    assert_eq!(titles_where(op(BinaryOperator::Lte, current("price"), float(8.95))), cheap);
    assert_eq!(titles_where(op(BinaryOperator::Eq, current("price"), float(8.95))), cheap);
    assert_eq!(titles_where(op(BinaryOperator::NotEq, current("price"), float(8.95))), dear);
    assert_eq!(titles_where(op(BinaryOperator::Gt, current("price"), float(8.95))), dear);
    assert_eq!(titles_where(op(BinaryOperator::Gte, current("price"), uint(12))), dear);
    assert_eq!(titles_where(op(BinaryOperator::Gt, uint(10), current("price"))), cheap);
    assert_eq!(titles_where(op(BinaryOperator::Eq, current("price"), float(12.0))).len(), 1);
}

#[test]
fn filters_compare_strings_bytewise() {
    let eq = titles_where(op(BinaryOperator::Eq, current("title"), string("Sword")));
    assert_eq!(eq, docs(vec![J::Str("Sword")]));
    let after = titles_where(op(BinaryOperator::Gt, current("title"), string("Say")));
    assert_eq!(after, docs(vec![J::Str("Sayings"), J::Str("Sword")]));
    let before = titles_where(op(BinaryOperator::Lt, current("title"), string("Sayingsa")));
    assert_eq!(before, docs(vec![J::Str("Moby Dick"), J::Str("Sayings")]));
    let value = J::Arr(vec![J::Str("\u{e9}"), J::Str("z")]);
    let expr = op(BinaryOperator::Gt, Expr::Paths(vec![Path::Current]), string("z"));
    assert_eq!(
        all(vec![Path::BracketWildcard, filter(expr)], &value),
        docs(vec![J::Str("\u{e9}")])
    );
}

#[test]
fn filters_compare_like_with_like() {
    let value = || {
        J::Arr(vec![
            J::Null,
            J::Bool(false),
            J::Bool(true),
            J::UInt(1),
            J::Str("1"),
            J::Arr(vec![J::UInt(1)]),
        ])
    };
    let here = || Expr::Paths(vec![Path::Current]);
    let kept = |expr| all(vec![Path::BracketWildcard, filter(expr)], &value());
    let null = || Expr::Value(Box::new(PathValue::Null));
    let truth = |b| Expr::Value(Box::new(PathValue::Boolean(b)));
    assert_eq!(kept(op(BinaryOperator::Eq, here(), null())), docs(vec![J::Null]));
    assert_eq!(kept(op(BinaryOperator::NotEq, here(), null())), docs(vec![]));
    assert_eq!(kept(op(BinaryOperator::Gte, here(), null())), docs(vec![J::Null]));
    assert_eq!(kept(op(BinaryOperator::Lt, here(), truth(true))), docs(vec![J::Bool(false)]));
    assert_eq!(kept(op(BinaryOperator::Gt, here(), truth(false))), docs(vec![J::Bool(true)]));
    assert_eq!(kept(op(BinaryOperator::NotEq, here(), truth(true))), docs(vec![J::Bool(false)]));
    assert_eq!(kept(op(BinaryOperator::Eq, here(), uint(1))), docs(vec![J::UInt(1)]));
    assert_eq!(kept(op(BinaryOperator::NotEq, here(), uint(1))), docs(vec![]));
    assert_eq!(kept(op(BinaryOperator::Eq, here(), string("1"))), docs(vec![J::Str("1")]));
}

#[test]
fn filters_combine() {
    let cheap = || op(BinaryOperator::Lt, current("price"), uint(20));
    let late = || op(BinaryOperator::Gt, current("title"), string("Say"));
    assert_eq!(
        titles_where(op(BinaryOperator::And, cheap(), late())),
        docs(vec![J::Str("Sayings")])
    );
    assert_eq!(
        titles_where(op(BinaryOperator::Or, cheap(), late())),
        docs(vec![J::Str("Moby Dick"), J::Str("Sayings"), J::Str("Sword")])
    );
}

#[test]
fn a_conjunction_filters_twice() {
    let cheap = || op(BinaryOperator::Lt, current("price"), uint(20));
    let late = || op(BinaryOperator::Gt, current("title"), string("Say"));
    let twice = vec![field("book"), Path::BracketWildcard, filter(cheap()), filter(late())];
    let once = vec![
        field("book"),
        Path::BracketWildcard,
        filter(op(BinaryOperator::And, cheap(), late())),
    ];
    let found = all(twice, &store());
    assert_eq!(found.len(), 1);
    assert_eq!(all(once, &store()), found);
}

#[test]
fn filter_functions() {
    let has_isbn = Expr::FilterFunc(FilterFunc::Exists(vec![Path::Current, field("isbn")]));
    assert_eq!(titles_where(has_isbn), docs(vec![J::Str("Moby Dick")]));
    let has_color = Expr::FilterFunc(FilterFunc::Exists(vec![Path::Root, field("color")]));
    assert_eq!(titles_where(has_color).len(), 3);
    let nested = Expr::FilterFunc(FilterFunc::Exists(vec![
        Path::Current,
        filter(op(BinaryOperator::Gt, current("price"), uint(20))),
    ]));
    assert_eq!(titles_where(nested), docs(vec![J::Str("Sword")]));
    let starts = Expr::FilterFunc(FilterFunc::StartsWith(Cow::Borrowed("M")));
    assert_eq!(titles_where(starts), docs(vec![]));
}

#[test]
fn comparisons_are_existential() {
    let value = || {
        J::Obj(vec![
            ("a", J::Arr(vec![J::UInt(1), J::UInt(5)])),
            ("b", J::Arr(vec![J::UInt(5), J::UInt(9)])),
            ("c", J::Arr(vec![])),
        ])
    };
    let side = |name| Expr::Paths(vec![Path::Root, field(name), Path::BracketWildcard]);
    let holds = |left, o, right| all(predicate(op(o, left, right)), &value());
    let yes = docs(vec![J::Bool(true)]);
    let no = docs(vec![J::Bool(false)]);
    assert_eq!(holds(side("a"), BinaryOperator::Eq, side("b")), yes);
    assert_eq!(holds(side("a"), BinaryOperator::NotEq, side("a")), yes);
    assert_eq!(holds(side("a"), BinaryOperator::Gt, side("b")), no);
    assert_eq!(holds(side("b"), BinaryOperator::Lt, side("a")), no);
    assert_eq!(holds(uint(9), BinaryOperator::Lte, side("b")), yes);
    assert_eq!(holds(side("c"), BinaryOperator::Eq, side("c")), no);
    assert_eq!(holds(uint(3), BinaryOperator::Lt, uint(4)), yes);
    assert_eq!(holds(uint(4), BinaryOperator::Lt, uint(3)), no);
    // Containers are not compared.
    let whole = || Expr::Paths(vec![Path::Root, field("a")]);
    assert_eq!(holds(whole(), BinaryOperator::Eq, whole()), no);
    // Picked places, and an operand without parts.
    let place = Expr::Paths(vec![field("x"), field("b"), Path::ArrayIndices(vec![last(0)])]);
    assert_eq!(holds(place, BinaryOperator::Eq, uint(9)), yes);
    assert_eq!(holds(Expr::Paths(vec![]), BinaryOperator::Eq, uint(9)), no);
}

#[test]
fn a_lone_scalar_is_not_compared() {
    let expr = op(BinaryOperator::Gt, Expr::Paths(vec![Path::Current]), uint(3));
    assert_eq!(all(vec![Path::Root, filter(expr)], &J::UInt(5)), docs(vec![]));
}

fn match_of(paths: Vec<Path<'_>>, value: &J) -> Result<bool, Error> {
    let json_path = JsonPath { paths };
    Selector::new(&json_path, Mode::All).predicate_match(RawJsonb::new(&doc(value)))
}

fn exists_in(paths: Vec<Path<'_>>, value: &J) -> Result<bool, Error> {
    let json_path = JsonPath { paths };
    Selector::new(&json_path, Mode::All).path_exists(RawJsonb::new(&doc(value)))
}

#[test]
fn predicates_answer() {
    let value = J::Obj(vec![("a", J::UInt(3))]);
    let side = || Expr::Paths(vec![Path::Root, field("a")]);
    let yes = || predicate(op(BinaryOperator::Gt, side(), uint(2)));
    let no = || predicate(op(BinaryOperator::Gt, side(), uint(3)));
    for mode in [Mode::All, Mode::First, Mode::Array, Mode::Mixed] {
        assert_eq!(
            run(yes(), mode, &doc(&value)),
            Ok(vec![vec![0x20, 0, 0, 0, 0x40, 0, 0, 0]])
        );
        assert_eq!(
            run(no(), mode, &doc(&value)),
            Ok(vec![vec![0x20, 0, 0, 0, 0x30, 0, 0, 0]])
        );
    }
    assert_eq!(match_of(yes(), &value), Ok(true));
    assert_eq!(match_of(no(), &value), Ok(false));
    assert_eq!(exists_in(yes(), &value), Ok(true));
    assert_eq!(exists_in(no(), &value), Ok(true));
}

#[test]
fn only_predicates_match() {
    let value = J::Obj(vec![("a", J::UInt(3))]);
    assert_eq!(
        match_of(vec![Path::Root, field("a")], &value),
        Err(Error::InvalidJsonPathPredicate)
    );
    assert_eq!(match_of(vec![], &value), Err(Error::InvalidJsonPathPredicate));
    // Even in a document that is broken.
    let json_path = JsonPath { paths: vec![Path::Root] };
    let selector = Selector::new(&json_path, Mode::All);
    assert_eq!(
        selector.predicate_match(RawJsonb::new(&[])),
        Err(Error::InvalidJsonPathPredicate)
    );
}

#[test]
fn existence() {
    assert_eq!(exists_in(titles(), &store()), Ok(true));
    assert_eq!(exists_in(vec![field("nothing")], &store()), Ok(false));
    assert_eq!(exists_in(vec![Path::Root], &J::Null), Ok(true));
}

#[test]
fn truncated_documents_fail() {
    let broken = Err(Error::InvalidJsonb);
    for data in [&[][..], &[0x40, 0, 0][..]] {
        assert_eq!(run(vec![Path::DotWildcard], Mode::All, data), broken);
        assert_eq!(run(vec![Path::BracketWildcard], Mode::All, data), broken);
        assert_eq!(run(vec![field("a")], Mode::All, data), broken);
        assert_eq!(run(vec![Path::ArrayIndices(vec![at(0)])], Mode::All, data), broken);
    }
    let object = [0x40, 0, 0, 1, 0x10, 0, 0, 1, 0x00, 0, 0];
    assert_eq!(run(vec![Path::DotWildcard], Mode::All, &object), broken);
    assert_eq!(run(vec![field("a")], Mode::All, &object), broken);
    let keys = [0x40, 0, 0, 1, 0x10, 0, 0];
    assert_eq!(run(vec![Path::DotWildcard], Mode::All, &keys), broken);
    assert_eq!(run(vec![field("a")], Mode::All, &keys), broken);
    let array = [0x80, 0, 0, 2, 0x00, 0, 0, 0];
    assert_eq!(run(vec![Path::BracketWildcard], Mode::All, &array), broken);
    assert_eq!(run(vec![Path::ArrayIndices(vec![at(0)])], Mode::All, &array), broken);
    // No place is picked, so no descriptor is read.
    assert_eq!(run(vec![Path::ArrayIndices(vec![at(2)])], Mode::All, &array), Ok(vec![]));
    // The key is announced but not there; a name of another length does not read it.
    let key = [0x40, 0, 0, 1, 0x10, 0, 0, 2, 0x00, 0, 0, 0, b'a'];
    assert_eq!(run(vec![field("ab")], Mode::All, &key), broken);
    assert_eq!(run(vec![field("abc")], Mode::All, &key), Ok(vec![]));
    // The failure of a filter is the failure of the path.
    let expr = op(BinaryOperator::Eq, Expr::Paths(vec![Path::Root, field("ab")]), uint(1));
    assert_eq!(run(predicate(expr), Mode::All, &key), broken);
    let json_path = JsonPath { paths: vec![field("ab")] };
    let selector = Selector::new(&json_path, Mode::First);
    assert_eq!(selector.path_exists(RawJsonb::new(&key)), Err(Error::InvalidJsonb));
}

#[test]
fn broken_numbers_fail() {
    // An array of one number, whose first byte is unknown.
    let data = [0x80, 0, 0, 1, 0x20, 0, 0, 1, 0x77];
    let side = || Expr::Paths(vec![Path::Root, Path::BracketWildcard]);
    let expr = op(BinaryOperator::Eq, side(), uint(1));
    assert_eq!(run(predicate(expr), Mode::All, &data), Err(Error::InvalidJsonbNumber));
    let json_path = JsonPath { paths: predicate(op(BinaryOperator::Eq, uint(1), side())) };
    let selector = Selector::new(&json_path, Mode::All);
    assert_eq!(
        selector.predicate_match(RawJsonb::new(&data)),
        Err(Error::InvalidJsonbNumber)
    );
    // Without a comparison the number is not read.
    assert_eq!(run(vec![Path::BracketWildcard], Mode::All, &data).unwrap().len(), 1);
}

#[test]
fn well_formed_documents_are_recognised() {
    let well_formed = |data: &[u8]| RawJsonb::new(data).is_well_formed();
    assert!(well_formed(&doc(&store())));
    assert!(well_formed(&doc(&J::Arr(vec![J::Int(-5), J::Float(0.5), J::Obj(vec![])]))));
    assert!(well_formed(&doc(&J::Str("gr\u{fc}n"))));
    assert!(well_formed(&doc(&J::Null)));
    assert!(!well_formed(&[]));
    assert!(!well_formed(&[0x80, 0, 0]));
    assert!(!well_formed(&[0x00, 0, 0, 0]));
    assert!(!well_formed(&[0x20, 0, 0, 0]));
    assert!(!well_formed(&[0x20, 0, 0, 0, 0x60, 0, 0, 0]));
    assert!(!well_formed(&[0x20, 0, 0, 0, 0x10, 0, 0, 1]));
    assert!(!well_formed(&[0x20, 0, 0, 0, 0x10, 0, 0, 1, 0xFF]));
    assert!(!well_formed(&[0x20, 0, 0, 0, 0x20, 0, 0, 1, 0x77]));
    assert!(!well_formed(&[0x20, 0, 0, 0, 0x20, 0, 0, 0]));
    assert!(!well_formed(&[0x80, 0, 0, 1, 0x10, 0, 0, 2, b'a']));
    assert!(!well_formed(&[0x40, 0, 0, 1, 0x10, 0, 0, 2, 0x00, 0, 0, 0, b'a']));
    assert!(!well_formed(&[0x40, 0, 0, 1, 0x10, 0, 0, 1, 0x50, 0, 0, 4, b'a', 0, 0, 0, 0]));
    for end in 0..doc(&store()).len() {
        assert!(!well_formed(&doc(&store())[..end]));
    }
}

#[test]
fn sound_paths_are_recognised() {
    let sound = |paths| JsonPath { paths }.is_sound(0x1FFF_FFFF);
    assert!(sound(vec![]));
    assert!(sound(titles()));
    assert!(sound(predicate(op(BinaryOperator::Eq, current("a"), uint(1)))));
    assert!(sound(vec![filter(Expr::FilterFunc(FilterFunc::Exists(vec![Path::Current])))]));
    assert!(sound(vec![filter(Expr::FilterFunc(FilterFunc::StartsWith(Cow::Borrowed("a"))))]));
    assert!(!sound(vec![Path::Current]));
    assert!(!sound(vec![filter(uint(1))]));
    assert!(!sound(vec![filter(current("a"))]));
    let inner = op(BinaryOperator::Eq, uint(1), uint(1));
    assert!(!sound(vec![filter(op(BinaryOperator::Lt, inner, uint(1)))]));
    assert!(!sound(vec![filter(op(BinaryOperator::And, uint(1), uint(1)))]));
    let middle = Expr::Paths(vec![Path::Root, Path::Current]);
    assert!(!sound(vec![filter(op(BinaryOperator::Eq, middle, uint(1)))]));
    assert!(sound(vec![Path::ArrayIndices(vec![at(i32::MAX), last(0x6000_0000)])]));
    assert!(!sound(vec![Path::ArrayIndices(vec![last(0x6000_0001)])]));
    let far = |longest| JsonPath { paths: vec![Path::ArrayIndices(vec![last(0x7FFF_FFFD)])] }
        .is_sound(longest);
    assert!(far(0));
    assert!(far(2));
    assert!(!far(3));
    assert!(!far(usize::MAX));
}

#[test]
fn far_indices_suit_short_arrays() {
    let json_path = JsonPath { paths: vec![Path::ArrayIndices(vec![last(0x7FFF_FFFD), at(1)])] };
    let selector = Selector::new(&json_path, Mode::All);
    let short = doc(&J::Arr(vec![J::UInt(1), J::UInt(2)]));
    assert!(selector.can_select(RawJsonb::new(&short)));
    let found = selector.select(RawJsonb::new(&short)).map(bytes_of);
    assert_eq!(found, Ok(docs(vec![J::UInt(2)])));
    let long = doc(&J::Obj(vec![("a", J::Arr(vec![J::Arr(vec![J::Null, J::Null, J::Null])]))]));
    assert!(!selector.can_select(RawJsonb::new(&long)));
    assert!(selector.can_select(RawJsonb::new(&doc(&J::Obj(vec![("a", J::UInt(1))])))));
}

#[test]
fn what_can_be_selected_is_selected() {
    let json_path = JsonPath { paths: titles() };
    let selector = Selector::new(&json_path, Mode::Mixed);
    let data = doc(&store());
    assert!(selector.can_select(RawJsonb::new(&data)));
    assert!(selector.select(RawJsonb::new(&data)).is_ok());
    assert!(!selector.can_select(RawJsonb::new(&data[..20])));
    let nowhere = JsonPath { paths: vec![Path::Current] };
    assert!(!Selector::new(&nowhere, Mode::All).can_select(RawJsonb::new(&data)));
}

#[test]
fn owned_documents_can_be_read_again() {
    let json_path = JsonPath { paths: vec![field("book")] };
    let data = doc(&store());
    let found = Selector::new(&json_path, Mode::All).select(RawJsonb::new(&data)).unwrap();
    assert_eq!(found[0].as_raw().len(), found[0].data.len());
    let inner = JsonPath { paths: vec![Path::ArrayIndices(vec![last(0)]), field("price")] };
    let price = Selector::new(&inner, Mode::All).select(found[0].as_raw()).unwrap();
    assert_eq!(bytes_of(price), docs(vec![J::UInt(23)]));
}

#[test]
fn index_lists_concatenate() {
    let front = || vec![at(3), ArrayIndex::Slice((Index::Index(1), Index::Index(3)))];
    let back = || vec![last(0), at(3)];
    let mut all_indices = front();
    all_indices.extend(back());
    let mut expected = pick(front());
    expected.extend(pick(back()));
    assert_eq!(expected.len(), 6);
    assert_eq!(pick(all_indices), expected);
}

#[test]
fn a_slice_of_one_place_is_the_index() {
    for i in -2..12 {
        assert_eq!(slice(Index::Index(i), Index::Index(i)), pick(vec![at(i)]));
        assert_eq!(slice(Index::LastIndex(-i), Index::LastIndex(-i)), pick(vec![last(-i)]));
    }
    assert_eq!(slice(Index::Index(4), Index::Index(4)), docs(vec![J::UInt(4)]));
}

#[test]
fn a_name_picks_one_of_all_values() {
    let value = || J::Obj(vec![("a", J::UInt(1)), ("b", J::UInt(2)), ("b", J::UInt(3))]);
    let values = all(vec![Path::DotWildcard], &value());
    assert_eq!(all(vec![field("b")], &value()), values[1..2].to_vec());
    assert_eq!(all(vec![field("B")], &value()), docs(vec![]));
}

#[test]
fn an_array_gives_broken_values_back() {
    // The second value is a number that cannot be read.
    let data = [0x80, 0, 0, 2, 0x10, 0, 0, 1, 0x20, 0, 0, 1, b'x', 0x77];
    let paths = || vec![Path::Root, Path::BracketWildcard];
    let separate = run(paths(), Mode::All, &data).unwrap();
    let together = run(paths(), Mode::Array, &data).unwrap();
    assert_eq!(together, vec![data.to_vec()]);
    assert_eq!(run(paths(), Mode::All, &together[0]), Ok(separate));
}

#[test]
fn operands_are_read_where_paths_lead() {
    let value = || J::Obj(vec![("a", J::Arr(vec![J::UInt(1), J::Arr(vec![]), J::Str("x")]))]);
    let side = || Expr::Paths(vec![Path::Root, field("a"), Path::BracketWildcard]);
    let holds = |e| match_of(predicate(op(BinaryOperator::Eq, side(), e)), &value());
    assert_eq!(holds(uint(1)), Ok(true));
    assert_eq!(holds(string("x")), Ok(true));
    assert_eq!(holds(uint(2)), Ok(false));
    assert_eq!(holds(Expr::Value(Box::new(PathValue::Null))), Ok(false));
}

#[test]
fn broken_documents_do_not_refuse_predicates() {
    let data = [0x40, 0, 0];
    let side = Expr::Paths(vec![Path::Root, field("a")]);
    let json_path = JsonPath { paths: predicate(op(BinaryOperator::Eq, side, uint(1))) };
    let selector = Selector::new(&json_path, Mode::All);
    assert_eq!(selector.predicate_match(RawJsonb::new(&data)), Err(Error::InvalidJsonb));
}
