//! End-to-end tests of the encrypted query pipeline, run with real tfhe
//! ciphertexts. The key session uses small, noiseless test parameters so the
//! homomorphic circuits run quickly; the pipeline code is the same as under
//! production parameters.

use fhe_query::decode::decode;
use fhe_query::decode::PlainAnswer;
use fhe_query::decode::ProjectionKind;
use fhe_query::error::Error;
use fhe_query::eval::evaluate;
use fhe_query::fhe::open_session;
use fhe_query::fhe::ClientKeyHandle;
use fhe_query::fhe::ServerKeyHandle;
use fhe_query::program::encode;
use fhe_query::query::CmpOp;
use fhe_query::query::Operand;
use fhe_query::query::Pred;
use fhe_query::query::Proj;
use fhe_query::query::Query;
use fhe_query::table::encrypt_table;
use fhe_query::table::Column;
use fhe_query::table::PlainTable;
use fhe_query::table::Store;
use fhe_query::values::ColumnType;
use fhe_query::values::IntWidth;
use fhe_query::values::PlainValue;

use tfhe::shortint::parameters::CarryModulus;
use tfhe::shortint::parameters::CiphertextModulus;
use tfhe::shortint::parameters::ClassicPBSParameters;
use tfhe::shortint::parameters::DecompositionBaseLog;
use tfhe::shortint::parameters::DecompositionLevelCount;
use tfhe::shortint::parameters::DynamicDistribution;
use tfhe::shortint::parameters::EncryptionKeyChoice;
use tfhe::shortint::parameters::GlweDimension;
use tfhe::shortint::parameters::LweDimension;
use tfhe::shortint::parameters::MaxNoiseLevel;
use tfhe::shortint::parameters::MessageModulus;
use tfhe::shortint::parameters::PolynomialSize;
use tfhe::shortint::parameters::StandardDev;

/// Small, noiseless parameters sized for tests: two-bit blocks like the
/// production sets, tiny dimensions, zero noise.
fn session() -> (ClientKeyHandle, ServerKeyHandle) {
    let params = ClassicPBSParameters {
        lwe_dimension: LweDimension(16),
        glwe_dimension: GlweDimension(1),
        polynomial_size: PolynomialSize(256),
        lwe_noise_distribution: DynamicDistribution::new_gaussian_from_std_dev(StandardDev(0.0)),
        glwe_noise_distribution: DynamicDistribution::new_gaussian_from_std_dev(StandardDev(0.0)),
        pbs_base_log: DecompositionBaseLog(23),
        pbs_level: DecompositionLevelCount(1),
        ks_base_log: DecompositionBaseLog(3),
        ks_level: DecompositionLevelCount(5),
        message_modulus: MessageModulus(4),
        carry_modulus: CarryModulus(4),
        max_noise_level: MaxNoiseLevel::new(5),
        log2_p_fail: -64.0,
        ciphertext_modulus: CiphertextModulus::new_native(),
        encryption_key_choice: EncryptionKeyChoice::Big,
    };
    open_session(tfhe::integer::ClientKey::new(params)).expect("two-bit block parameters")
}

/// Keys whose parameters do not give two-bit blocks are refused at the
/// session door: none of the library's capacity contracts would hold of
/// them.
#[test]
fn unsuitable_key_parameters_are_refused() {
    let params = ClassicPBSParameters {
        lwe_dimension: LweDimension(16),
        glwe_dimension: GlweDimension(1),
        polynomial_size: PolynomialSize(256),
        lwe_noise_distribution: DynamicDistribution::new_gaussian_from_std_dev(StandardDev(0.0)),
        glwe_noise_distribution: DynamicDistribution::new_gaussian_from_std_dev(StandardDev(0.0)),
        pbs_base_log: DecompositionBaseLog(23),
        pbs_level: DecompositionLevelCount(1),
        ks_base_log: DecompositionBaseLog(3),
        ks_level: DecompositionLevelCount(5),
        message_modulus: MessageModulus(2),
        carry_modulus: CarryModulus(2),
        max_noise_level: MaxNoiseLevel::new(3),
        log2_p_fail: -64.0,
        ciphertext_modulus: CiphertextModulus::new_native(),
        encryption_key_choice: EncryptionKeyChoice::Big,
    };
    assert!(open_session(tfhe::integer::ClientKey::new(params)).is_none());
}

/// The table of the scenarios: `t(id: uint8, flag: bool)` with rows
/// `(1, true), (2, false), (3, true)`.
fn scenario_table() -> PlainTable {
    let mut t = PlainTable::new(
        String::from("t"),
        vec![
            Column { name: String::from("id"), ty: ColumnType::UnsignedInt(IntWidth::W8) },
            Column { name: String::from("flag"), ty: ColumnType::Boolean },
        ],
    );
    t.insert_row(vec![PlainValue::Uint(1), PlainValue::Bool(true)]).unwrap();
    t.insert_row(vec![PlainValue::Uint(2), PlainValue::Bool(false)]).unwrap();
    t.insert_row(vec![PlainValue::Uint(3), PlainValue::Bool(true)]).unwrap();
    t
}

fn select_id(table: &str, selection: Option<Pred>) -> Query {
    Query {
        projection: vec![Proj::Column(String::from("id"))],
        table: String::from(table),
        selection,
        unsupported: false,
    }
}

fn run_rows(q: &Query, t: &PlainTable) -> Result<Vec<Vec<PlainValue>>, Error> {
    let (ck, sk) = session();
    let prog = encode(q, &ck)?;
    let mut store = Store::new();
    assert!(store.add(encrypt_table(t, &ck)?));
    let res = evaluate(&prog, &store, &sk)?;
    match decode(&res, &ck, ProjectionKind::Rows)? {
        PlainAnswer::Rows(rows) => Ok(rows),
        PlainAnswer::Sums(_) => panic!("asked for rows"),
    }
}

fn ids(rows: &[Vec<PlainValue>]) -> Vec<u64> {
    rows.iter()
        .map(|r| match &r[0] {
            PlainValue::Uint(x) => *x,
            other => panic!("expected an unsigned id, got {:?}", other),
        })
        .collect()
}

#[test]
fn selects_rows_where_flag_is_true() {
    let q = select_id(
        "t",
        Some(Pred::Cmp(
            CmpOp::Eq,
            Operand::Column(String::from("flag")),
            Operand::Literal(PlainValue::Bool(true)),
        )),
    );
    let rows = run_rows(&q, &scenario_table()).unwrap();
    assert_eq!(ids(&rows), vec![1, 3]);
}

#[test]
fn selects_rows_between_bounds() {
    let q = select_id(
        "t",
        Some(Pred::Between(
            Operand::Column(String::from("id")),
            Operand::Literal(PlainValue::Uint(2)),
            Operand::Literal(PlainValue::Uint(3)),
        )),
    );
    let rows = run_rows(&q, &scenario_table()).unwrap();
    assert_eq!(ids(&rows), vec![2, 3]);
}

#[test]
fn selects_rows_in_list() {
    let q = select_id(
        "t",
        Some(Pred::InList(
            Operand::Column(String::from("id")),
            vec![
                Operand::Literal(PlainValue::Uint(1)),
                Operand::Literal(PlainValue::Uint(2)),
            ],
        )),
    );
    let rows = run_rows(&q, &scenario_table()).unwrap();
    assert_eq!(ids(&rows), vec![1, 2]);
}

#[test]
fn missing_table_is_reported() {
    let q = select_id("missing", None);
    assert_eq!(run_rows(&q, &scenario_table()), Err(Error::TableNotFound));
}

#[test]
fn unknown_column_is_a_schema_mismatch() {
    let q = select_id(
        "t",
        Some(Pred::Cmp(
            CmpOp::Eq,
            Operand::Column(String::from("nope")),
            Operand::Literal(PlainValue::Uint(1)),
        )),
    );
    assert_eq!(run_rows(&q, &scenario_table()), Err(Error::SchemaMismatch));
}

#[test]
fn wide_literal_exceeds_capacity() {
    let q = select_id(
        "t",
        Some(Pred::Cmp(
            CmpOp::Eq,
            Operand::Column(String::from("id")),
            Operand::Literal(PlainValue::Uint(300)),
        )),
    );
    assert_eq!(run_rows(&q, &scenario_table()), Err(Error::CapacityExceeded));
}

#[test]
fn unsupported_constructs_are_refused() {
    let q = select_id("t", Some(Pred::Unsupported));
    assert_eq!(run_rows(&q, &scenario_table()), Err(Error::UnsupportedQuery));
    let q2 = Query {
        projection: vec![Proj::Column(String::from("id"))],
        table: String::from("t"),
        selection: None,
        unsupported: true,
    };
    assert_eq!(run_rows(&q2, &scenario_table()), Err(Error::UnsupportedQuery));
}

#[test]
fn empty_table_yields_no_rows() {
    let t = PlainTable::new(
        String::from("t"),
        vec![Column { name: String::from("id"), ty: ColumnType::UnsignedInt(IntWidth::W8) }],
    );
    let q = select_id("t", None);
    let rows = run_rows(&q, &t).unwrap();
    assert!(rows.is_empty());
}

#[test]
fn wildcard_projects_every_column() {
    let q = Query {
        projection: vec![Proj::Wildcard],
        table: String::from("t"),
        selection: Some(Pred::Cmp(
            CmpOp::Gt,
            Operand::Column(String::from("id")),
            Operand::Literal(PlainValue::Uint(2)),
        )),
        unsupported: false,
    };
    let rows = run_rows(&q, &scenario_table()).unwrap();
    assert_eq!(rows, vec![vec![PlainValue::Uint(3), PlainValue::Bool(true)]]);
}

#[test]
fn le_lowers_to_negated_strict_test() {
    let q = select_id(
        "t",
        Some(Pred::Cmp(
            CmpOp::Le,
            Operand::Column(String::from("id")),
            Operand::Literal(PlainValue::Uint(2)),
        )),
    );
    let rows = run_rows(&q, &scenario_table()).unwrap();
    assert_eq!(ids(&rows), vec![1, 2]);
}

#[test]
fn neq_selects_the_complement() {
    let q = select_id(
        "t",
        Some(Pred::Cmp(
            CmpOp::Neq,
            Operand::Column(String::from("id")),
            Operand::Literal(PlainValue::Uint(2)),
        )),
    );
    let rows = run_rows(&q, &scenario_table()).unwrap();
    assert_eq!(ids(&rows), vec![1, 3]);
}

#[test]
fn signed_columns_compare_on_the_signed_scale() {
    let mut t = PlainTable::new(
        String::from("s"),
        vec![Column { name: String::from("bal"), ty: ColumnType::SignedInt(IntWidth::W16) }],
    );
    t.insert_row(vec![PlainValue::Int(-5)]).unwrap();
    t.insert_row(vec![PlainValue::Int(3)]).unwrap();
    let q = Query {
        projection: vec![Proj::Column(String::from("bal"))],
        table: String::from("s"),
        selection: Some(Pred::Cmp(
            CmpOp::Lt,
            Operand::Column(String::from("bal")),
            Operand::Literal(PlainValue::Uint(1)),
        )),
        unsupported: false,
    };
    let rows = run_rows(&q, &t).unwrap();
    assert_eq!(rows, vec![vec![PlainValue::Int(-5)]]);
}

#[test]
fn text_equality_compares_content() {
    let mut t = PlainTable::new(
        String::from("people"),
        vec![
            Column { name: String::from("id"), ty: ColumnType::UnsignedInt(IntWidth::W8) },
            Column { name: String::from("name"), ty: ColumnType::Text },
        ],
    );
    t.insert_row(vec![PlainValue::Uint(1), PlainValue::Text(b"ada".to_vec())]).unwrap();
    t.insert_row(vec![PlainValue::Uint(2), PlainValue::Text(b"bob".to_vec())]).unwrap();
    let q = Query {
        projection: vec![Proj::Column(String::from("id"))],
        table: String::from("people"),
        selection: Some(Pred::Cmp(
            CmpOp::Eq,
            Operand::Column(String::from("name")),
            Operand::Literal(PlainValue::Text(b"bob".to_vec())),
        )),
        unsupported: false,
    };
    let rows = run_rows(&q, &t).unwrap();
    assert_eq!(ids(&rows), vec![2]);
}

#[test]
fn cross_width_columns_compare() {
    let mut t = PlainTable::new(
        String::from("w"),
        vec![
            Column { name: String::from("a"), ty: ColumnType::UnsignedInt(IntWidth::W8) },
            Column { name: String::from("b"), ty: ColumnType::UnsignedInt(IntWidth::W16) },
        ],
    );
    t.insert_row(vec![PlainValue::Uint(7), PlainValue::Uint(300)]).unwrap();
    t.insert_row(vec![PlainValue::Uint(9), PlainValue::Uint(9)]).unwrap();
    let q = Query {
        projection: vec![Proj::Column(String::from("a"))],
        table: String::from("w"),
        selection: Some(Pred::Cmp(
            CmpOp::Lt,
            Operand::Column(String::from("a")),
            Operand::Column(String::from("b")),
        )),
        unsupported: false,
    };
    let rows = run_rows(&q, &t).unwrap();
    assert_eq!(rows, vec![vec![PlainValue::Uint(7)]]);
}

#[test]
fn scalar_projection_sums_matches() {
    let (ck, sk) = session();
    let q = select_id(
        "t",
        Some(Pred::Cmp(
            CmpOp::Eq,
            Operand::Column(String::from("flag")),
            Operand::Literal(PlainValue::Bool(true)),
        )),
    );
    let prog = encode(&q, &ck).unwrap();
    let mut store = Store::new();
    assert!(store.add(encrypt_table(&scenario_table(), &ck).unwrap()));
    let res = evaluate(&prog, &store, &sk).unwrap();
    match decode(&res, &ck, ProjectionKind::Scalar).unwrap() {
        PlainAnswer::Sums(sums) => assert_eq!(sums, vec![4]),
        PlainAnswer::Rows(_) => panic!("asked for sums"),
    }
}

#[test]
fn fresh_encodings_decode_alike() {
    let (ck, sk) = session();
    let q = select_id(
        "t",
        Some(Pred::Cmp(
            CmpOp::Eq,
            Operand::Column(String::from("flag")),
            Operand::Literal(PlainValue::Bool(true)),
        )),
    );
    let prog1 = encode(&q, &ck).unwrap();
    let prog2 = encode(&q, &ck).unwrap();
    let mut store = Store::new();
    assert!(store.add(encrypt_table(&scenario_table(), &ck).unwrap()));
    let r1 = evaluate(&prog1, &store, &sk).unwrap();
    let r2 = evaluate(&prog2, &store, &sk).unwrap();
    let a1 = decode(&r1, &ck, ProjectionKind::Rows).unwrap();
    let a2 = decode(&r2, &ck, ProjectionKind::Rows).unwrap();
    assert_eq!(a1, a2);
}

#[test]
fn reevaluation_decodes_alike() {
    let (ck, sk) = session();
    let q = select_id(
        "t",
        Some(Pred::Between(
            Operand::Column(String::from("id")),
            Operand::Literal(PlainValue::Uint(1)),
            Operand::Literal(PlainValue::Uint(2)),
        )),
    );
    let prog = encode(&q, &ck).unwrap();
    let mut store = Store::new();
    assert!(store.add(encrypt_table(&scenario_table(), &ck).unwrap()));
    let r1 = evaluate(&prog, &store, &sk).unwrap();
    let r2 = evaluate(&prog, &store, &sk).unwrap();
    let a1 = decode(&r1, &ck, ProjectionKind::Rows).unwrap();
    let a2 = decode(&r2, &ck, ProjectionKind::Rows).unwrap();
    assert_eq!(a1, a2);
}

#[test]
fn evaluation_shape_is_oblivious_to_matches() {
    // two tables of one schema and row count, differing only in which rows
    // match: the evaluation succeeds on both with results of one shape
    let (ck, sk) = session();
    let mut t1 = scenario_table();
    t1.rows.clear();
    t1.insert_row(vec![PlainValue::Uint(1), PlainValue::Bool(true)]).unwrap();
    t1.insert_row(vec![PlainValue::Uint(2), PlainValue::Bool(true)]).unwrap();
    let mut t2 = scenario_table();
    t2.rows.clear();
    t2.insert_row(vec![PlainValue::Uint(5), PlainValue::Bool(false)]).unwrap();
    t2.insert_row(vec![PlainValue::Uint(6), PlainValue::Bool(false)]).unwrap();
    let q = select_id(
        "t",
        Some(Pred::Cmp(
            CmpOp::Eq,
            Operand::Column(String::from("flag")),
            Operand::Literal(PlainValue::Bool(true)),
        )),
    );
    let prog = encode(&q, &ck).unwrap();
    let mut s1 = Store::new();
    assert!(s1.add(encrypt_table(&t1, &ck).unwrap()));
    let mut s2 = Store::new();
    assert!(s2.add(encrypt_table(&t2, &ck).unwrap()));
    let r1 = evaluate(&prog, &s1, &sk).unwrap();
    let r2 = evaluate(&prog, &s2, &sk).unwrap();
    assert_eq!(r1.len(), r2.len());
    // all rows matched in the first table, none in the second
    match decode(&r1, &ck, ProjectionKind::Rows).unwrap() {
        PlainAnswer::Rows(rows) => assert_eq!(ids(&rows), vec![1, 2]),
        _ => panic!(),
    }
    match decode(&r2, &ck, ProjectionKind::Rows).unwrap() {
        PlainAnswer::Rows(rows) => assert!(rows.is_empty()),
        _ => panic!(),
    }
}

#[test]
fn conjunctions_and_negations_compose() {
    // id > 1 AND NOT (flag = true)  ->  row 2 alone
    let q = select_id(
        "t",
        Some(Pred::And(
            Box::new(Pred::Cmp(
                CmpOp::Gt,
                Operand::Column(String::from("id")),
                Operand::Literal(PlainValue::Uint(1)),
            )),
            Box::new(Pred::Not(Box::new(Pred::Cmp(
                CmpOp::Eq,
                Operand::Column(String::from("flag")),
                Operand::Literal(PlainValue::Bool(true)),
            )))),
        )),
    );
    let rows = run_rows(&q, &scenario_table()).unwrap();
    assert_eq!(ids(&rows), vec![2]);
}

#[test]
fn ge_lowers_to_negated_strict_test() {
    let q = select_id(
        "t",
        Some(Pred::Cmp(
            CmpOp::Ge,
            Operand::Column(String::from("id")),
            Operand::Literal(PlainValue::Uint(2)),
        )),
    );
    let rows = run_rows(&q, &scenario_table()).unwrap();
    assert_eq!(ids(&rows), vec![2, 3]);
}

#[test]
fn disjunctions_compose() {
    // id = 1 OR id = 3
    let q = select_id(
        "t",
        Some(Pred::Or(
            Box::new(Pred::Cmp(
                CmpOp::Eq,
                Operand::Column(String::from("id")),
                Operand::Literal(PlainValue::Uint(1)),
            )),
            Box::new(Pred::Cmp(
                CmpOp::Eq,
                Operand::Column(String::from("id")),
                Operand::Literal(PlainValue::Uint(3)),
            )),
        )),
    );
    let rows = run_rows(&q, &scenario_table()).unwrap();
    assert_eq!(ids(&rows), vec![1, 3]);
}

#[test]
fn constant_predicates_select_all_or_none() {
    let all = select_id(
        "t",
        Some(Pred::Cmp(
            CmpOp::Eq,
            Operand::Literal(PlainValue::Uint(1)),
            Operand::Literal(PlainValue::Uint(1)),
        )),
    );
    assert_eq!(ids(&run_rows(&all, &scenario_table()).unwrap()), vec![1, 2, 3]);
    let none = select_id(
        "t",
        Some(Pred::Cmp(
            CmpOp::Eq,
            Operand::Literal(PlainValue::Uint(1)),
            Operand::Literal(PlainValue::Uint(2)),
        )),
    );
    assert!(run_rows(&none, &scenario_table()).unwrap().is_empty());
}

#[test]
fn text_membership_lowers_to_equality_chain() {
    let mut t = PlainTable::new(
        String::from("people"),
        vec![
            Column { name: String::from("id"), ty: ColumnType::UnsignedInt(IntWidth::W8) },
            Column { name: String::from("name"), ty: ColumnType::Text },
        ],
    );
    t.insert_row(vec![PlainValue::Uint(1), PlainValue::Text(b"ada".to_vec())]).unwrap();
    t.insert_row(vec![PlainValue::Uint(2), PlainValue::Text(b"bob".to_vec())]).unwrap();
    t.insert_row(vec![PlainValue::Uint(3), PlainValue::Text(b"eve".to_vec())]).unwrap();
    let q = Query {
        projection: vec![Proj::Column(String::from("id"))],
        table: String::from("people"),
        selection: Some(Pred::InList(
            Operand::Column(String::from("name")),
            vec![
                Operand::Literal(PlainValue::Text(b"ada".to_vec())),
                Operand::Literal(PlainValue::Text(b"eve".to_vec())),
            ],
        )),
        unsupported: false,
    };
    let rows = run_rows(&q, &t).unwrap();
    assert_eq!(ids(&rows), vec![1, 3]);
}
