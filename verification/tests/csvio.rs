use schist::array::{Array, RecordBatch};
use schist::csvio::{export, import, infer_kind, parse_records, try_export, try_import, CsvOptions, ImportFault, StringDict};
use schist::numeric::{RealTexts, Reals};
use schist::schema::ColKind;
use schist::value::Value;

fn reals() -> Reals {
    let mut r = Reals::new();
    r.note_text("1.5", 1.5f64.to_bits());
    r.note_text("2.5", 2.5f64.to_bits());
    r
}

#[test]
fn parse_simple() {
    let (h, rows) = parse_records("a,b,c\n1,2,3\n4,5,6\n", &CsvOptions::default()).unwrap();
    assert_eq!(h, Some(vec!["a".into(), "b".into(), "c".into()]));
    assert_eq!(rows.len(), 2);
    assert_eq!(rows[1], vec!["4", "5", "6"]);
}

#[test]
fn parse_quoted_fields() {
    let src = "name,note\n\"Smith, John\",\"line1\nline2\"\n\"quote\"\"inside\",x\n";
    let (_, rows) = parse_records(src, &CsvOptions::default()).unwrap();
    assert_eq!(rows[0][0], "Smith, John");
    assert_eq!(rows[0][1], "line1\nline2");
    assert_eq!(rows[1][0], "quote\"inside");
}

#[test]
fn infers_types() {
    let imp = import("n,f,t,s\n1,1.5,true,hi\n2,2.5,false,yo\n", &CsvOptions::default(), &reals())
        .unwrap();
    assert_eq!(imp.batch.column("n").unwrap().kind(), ColKind::Int);
    assert_eq!(imp.batch.column("f").unwrap().kind(), ColKind::Real);
    assert_eq!(imp.batch.column("t").unwrap().kind(), ColKind::Bool);
    assert_eq!(imp.batch.column("s").unwrap().kind(), ColKind::Text);
}

#[test]
fn roundtrip_export() {
    let src = "id,label\n1,alpha\n2,beta\n";
    let imp = import(src, &CsvOptions::default(), &reals()).unwrap();
    let out = export(&imp.batch, &imp.dict, &CsvOptions::default(), &RealTexts::new());
    let imp2 = import(&out, &CsvOptions::default(), &reals()).unwrap();
    assert_eq!(imp.batch.rows(), imp2.batch.rows());
    assert_eq!(imp2.batch.column("id").unwrap().value(1), Value::Int(2));
}

#[test]
fn nulls_from_empty() {
    let imp = import("a,b\n1,\n,4\n", &CsvOptions::default(), &reals()).unwrap();
    assert_eq!(imp.batch.column("b").unwrap().value(0), Value::Null);
    assert_eq!(imp.batch.column("a").unwrap().value(1), Value::Null);
}

#[test]
fn export_quotes_when_needed() {
    let mut dict = StringDict::new();
    let id = dict.intern("a,b");
    let arr = Array::from_values(ColKind::Text, &[Value::Text(id)]);
    let batch = RecordBatch::new(vec![("c".into(), arr)]);
    let out = export(&batch, &dict, &CsvOptions { has_header: false, ..Default::default() }, &RealTexts::new());
    assert!(out.contains("\"a,b\""));
}

#[test]
fn reals_are_looked_up() {
    let imp = import("f\n1.5\n2.5\n", &CsvOptions::default(), &reals()).unwrap();
    assert_eq!(imp.batch.column("f").unwrap().value(1), Value::Real(2.5f64.to_bits()));
    let mut texts = RealTexts::new();
    texts.note(1.5f64.to_bits(), "1.5");
    texts.note(2.5f64.to_bits(), "2.5");
    assert_eq!(export(&imp.batch, &imp.dict, &CsvOptions::default(), &texts), "f\n1.5\n2.5\n");
}

#[test]
fn quoted_text_reads_back() {
    let mut dict = StringDict::new();
    let id = dict.intern("say \"hi\",\nyou");
    let arr = Array::from_values(ColKind::Text, &[Value::Text(id)]);
    let batch = RecordBatch::new(vec![("c".into(), arr)]);
    let out = export(&batch, &dict, &CsvOptions::default(), &RealTexts::new());
    assert_eq!(out, "c\n\"say \"\"hi\"\",\nyou\"\n");
    let (_, rows) = parse_records(&out, &CsvOptions::default()).unwrap();
    assert_eq!(rows, vec![vec!["say \"hi\",\nyou".to_string()]]);
}

#[test]
fn unterminated_quote_is_refused() {
    assert!(parse_records("a\n\"b", &CsvOptions::default()).is_err());
}

#[test]
fn kinds_of_samples() {
    assert_eq!(infer_kind(&["1", "2"], ""), ColKind::Int);
    assert_eq!(infer_kind(&["1", "2.5"], ""), ColKind::Real);
    assert_eq!(infer_kind(&["true", "false"], ""), ColKind::Bool);
    assert_eq!(infer_kind(&["1", "x"], ""), ColKind::Text);
}

#[test]
fn an_import_reports_the_reals_that_the_table_lacks() {
    let opts = CsvOptions::default();
    let text = "a,b\n1,1.5\n2,2.5\n";
    let mut reals = Reals::new();
    match try_import(text, &opts, &reals) {
        Err(ImportFault::Lacking(v)) => assert_eq!(v, vec!["1.5".to_string(), "2.5".to_string()]),
        _ => panic!("two reals are missing"),
    }
    reals.note_text("1.5", 1.5f64.to_bits());
    reals.note_text("2.5", 2.5f64.to_bits());
    match try_import(text, &opts, &reals) {
        Ok(x) => {
            assert_eq!(x.batch.rows(), 2);
            assert_eq!(x.batch.column("b").unwrap().value(1), Value::Real(2.5f64.to_bits()));
            let mut texts = RealTexts::new();
            texts.note(1.5f64.to_bits(), "1.5");
            assert_eq!(try_export(&x.batch, &x.dict, &opts, &texts), Err(2.5f64.to_bits()));
            texts.note(2.5f64.to_bits(), "2.5");
            assert_eq!(try_export(&x.batch, &x.dict, &opts, &texts), Ok(text.to_string()));
        }
        _ => panic!("nothing is missing"),
    }
}

#[test]
fn an_import_of_no_csv_says_so() {
    match try_import("a\n\"b", &CsvOptions::default(), &Reals::new()) {
        Err(ImportFault::Text(e)) => assert_eq!(e.row, 1),
        _ => panic!("the quote is open"),
    }
}
