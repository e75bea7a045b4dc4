//! Tests of the plaintext data model: the word codec, literal typing, the
//! comparison width rule, and the plaintext store types.

use fhe_query::compare::plan_cmp_exec;
use fhe_query::error::Error;
use fhe_query::query::lit_type_exec;
use fhe_query::table::Column;
use fhe_query::table::PlainTable;
use fhe_query::table::Store;
use fhe_query::values::decode_code_exec;
use fhe_query::values::encode_value_exec;
use fhe_query::values::ColumnType;
use fhe_query::values::IntWidth;
use fhe_query::values::PlainValue;

#[test]
fn unsigned_codes_are_identity() {
    let t = ColumnType::UnsignedInt(IntWidth::W8);
    assert_eq!(encode_value_exec(&PlainValue::Uint(0), &t), 0);
    assert_eq!(encode_value_exec(&PlainValue::Uint(200), &t), 200);
    assert_eq!(decode_code_exec(7, &t), PlainValue::Uint(7));
}

#[test]
fn signed_codes_are_offset() {
    let t = ColumnType::SignedInt(IntWidth::W8);
    assert_eq!(encode_value_exec(&PlainValue::Int(-128), &t), 0);
    assert_eq!(encode_value_exec(&PlainValue::Int(0), &t), 128);
    assert_eq!(encode_value_exec(&PlainValue::Int(127), &t), 255);
    assert_eq!(decode_code_exec(0, &t), PlainValue::Int(-128));
    assert_eq!(decode_code_exec(130, &t), PlainValue::Int(2));
    let w = ColumnType::SignedInt(IntWidth::W64);
    let c = encode_value_exec(&PlainValue::Int(-1), &w);
    assert_eq!(c, 0x7fff_ffff_ffff_ffff);
    assert_eq!(decode_code_exec(c, &w), PlainValue::Int(-1));
}

#[test]
fn boolean_codes() {
    let t = ColumnType::Boolean;
    assert_eq!(encode_value_exec(&PlainValue::Bool(false), &t), 0);
    assert_eq!(encode_value_exec(&PlainValue::Bool(true), &t), 1);
    assert_eq!(decode_code_exec(1, &t), PlainValue::Bool(true));
}

#[test]
fn text_codes_pack_big_endian() {
    let t = ColumnType::Text;
    let c = encode_value_exec(&PlainValue::Text(b"ab".to_vec()), &t);
    assert_eq!(c, 0x6162_0000_0000_0000);
    assert_eq!(decode_code_exec(c, &t), PlainValue::Text(b"ab".to_vec()));
    let full = encode_value_exec(&PlainValue::Text(b"abcdefgh".to_vec()), &t);
    assert_eq!(decode_code_exec(full, &t), PlainValue::Text(b"abcdefgh".to_vec()));
    assert_eq!(decode_code_exec(0, &t), PlainValue::Text(Vec::new()));
}

#[test]
fn literal_types_take_minimal_width() {
    assert_eq!(
        lit_type_exec(&PlainValue::Uint(255)),
        ColumnType::UnsignedInt(IntWidth::W8)
    );
    assert_eq!(
        lit_type_exec(&PlainValue::Uint(256)),
        ColumnType::UnsignedInt(IntWidth::W16)
    );
    assert_eq!(
        lit_type_exec(&PlainValue::Int(-129)),
        ColumnType::SignedInt(IntWidth::W16)
    );
    assert_eq!(lit_type_exec(&PlainValue::Bool(true)), ColumnType::Boolean);
    assert_eq!(
        lit_type_exec(&PlainValue::Text(b"x".to_vec())),
        ColumnType::Text
    );
}

#[test]
fn width_rule_widens_and_refuses() {
    let u8t = ColumnType::UnsignedInt(IntWidth::W8);
    let u16t = ColumnType::UnsignedInt(IntWidth::W16);
    let s16t = ColumnType::SignedInt(IntWidth::W16);
    // two columns widen to the larger width
    let plan = plan_cmp_exec(false, &u8t, false, &u16t, false).unwrap();
    assert_eq!(plan.bits, 16);
    assert!(!plan.signed);
    // a wide literal against a narrow column is a capacity error
    assert_eq!(
        plan_cmp_exec(false, &u16t, true, &u8t, false),
        Err(Error::CapacityExceeded)
    );
    // a narrow unsigned operand joins a signed comparison on the signed scale
    let plan = plan_cmp_exec(true, &u8t, true, &s16t, false).unwrap();
    assert_eq!(plan.bits, 16);
    assert!(plan.signed);
    // equally wide unsigned and signed operands cannot be compared
    assert_eq!(
        plan_cmp_exec(false, &ColumnType::SignedInt(IntWidth::W8), true, &u8t, false),
        Err(Error::CapacityExceeded)
    );
    // booleans and texts admit only equality
    assert_eq!(
        plan_cmp_exec(true, &ColumnType::Boolean, false, &ColumnType::Boolean, true),
        Err(Error::SchemaMismatch)
    );
    assert_eq!(
        plan_cmp_exec(false, &ColumnType::Boolean, false, &u8t, true),
        Err(Error::SchemaMismatch)
    );
}

#[test]
fn plain_table_checks_rows() {
    let mut t = PlainTable::new(
        String::from("t"),
        vec![
            Column { name: String::from("id"), ty: ColumnType::UnsignedInt(IntWidth::W8) },
            Column { name: String::from("flag"), ty: ColumnType::Boolean },
        ],
    );
    assert!(t
        .insert_row(vec![PlainValue::Uint(1), PlainValue::Bool(true)])
        .is_ok());
    // wrong arity
    assert_eq!(
        t.insert_row(vec![PlainValue::Uint(1)]),
        Err(Error::SchemaMismatch)
    );
    // wrong type
    assert_eq!(
        t.insert_row(vec![PlainValue::Bool(true), PlainValue::Bool(true)]),
        Err(Error::SchemaMismatch)
    );
    // out of range for the declared width
    assert_eq!(
        t.insert_row(vec![PlainValue::Uint(300), PlainValue::Bool(false)]),
        Err(Error::SchemaMismatch)
    );
    assert_eq!(t.rows.len(), 1);
}

#[test]
fn store_keeps_names_unique() {
    let s = Store::new();
    assert!(s.find(&String::from("t")).is_none());
}

#[test]
fn error_descriptions() {
    assert_eq!(Error::TableNotFound.describe(), "table not found");
    assert_eq!(Error::UnsupportedQuery.describe(), "unsupported query");
    assert_eq!(Error::SchemaMismatch.describe(), "schema mismatch");
    assert_eq!(Error::CapacityExceeded.describe(), "capacity exceeded");
    assert_eq!(
        Error::DecryptionLengthMismatch.describe(),
        "decryption length mismatch"
    );
}
