use vstd::prelude::*;

verus! {

/// The records of headerless CSV text: for each row that parses, its
/// string fields. The result depends on the text alone.
pub uninterp spec fn csv_records_of(s: Seq<char>) -> Seq<Seq<Seq<char>>>;

/// Relies on csv::Reader: parses headerless CSV text into its records,
/// each a row of string fields; rows that fail to parse are skipped.
#[verifier::external_body]
fn parse_csv_records(text: &str) -> (r: Vec<Vec<String>>)
    ensures
        r.deep_view() == csv_records_of(text@),
{
    let mut rdr = csv::ReaderBuilder::new().has_headers(false).from_reader(text.as_bytes());
    let mut out: Vec<Vec<String>> = Vec::new();
    for record in rdr.records() {
        if let Ok(rec) = record {
            out.push(rec.iter().map(|f| f.to_string()).collect());
        }
    }
    out
}

/// The first field of each record that has one.
pub open spec fn first_fields(rs: Seq<Seq<Seq<char>>>) -> Seq<Seq<char>>
    decreases rs.len(),
{
    if rs.len() == 0 {
        Seq::empty()
    } else {
        let rest = first_fields(rs.drop_last());
        if rs.last().len() > 0 {
            rest.push(rs.last()[0])
        } else {
            rest
        }
    }
}

/// Reads the word source out of CSV text: one word per record, the
/// record's first field; records without fields are skipped.
pub fn words_from_csv(text: &str) -> (r: Vec<String>)
    ensures
        r.deep_view() == first_fields(csv_records_of(text@)),
{
    let records = parse_csv_records(text);
    let ghost rv = records.deep_view();
    let mut out: Vec<String> = Vec::new();
    let mut i: usize = 0;
    proof {
        assert(rv.take(0) =~= Seq::<Seq<Seq<char>>>::empty());
        assert(out.deep_view() =~= first_fields(rv.take(0)));
    }
    while i < records.len()
        invariant
            0 <= i <= records@.len(),
            rv == records.deep_view(),
            rv.len() == records@.len(),
            out.deep_view() == first_fields(rv.take(i as int)),
        decreases records@.len() - i,
    {
        proof {
            assert(rv.take(i + 1).drop_last() =~= rv.take(i as int));
            assert(rv.take(i + 1).last() == rv[i as int]);
            assert(rv[i as int] == records@[i as int].deep_view());
        }
        if records[i].len() > 0 {
            let ghost prev = out.deep_view();
            let w = records[i][0].clone();
            out.push(w);
            proof {
                assert(records@[i as int].deep_view()[0] == records@[i as int]@[0]@);
                assert(out.deep_view() =~= prev.push(rv[i as int][0]));
            }
        }
        i += 1;
    }
    proof {
        assert(rv.take(records@.len() as int) =~= rv);
    }
    out
}

} // verus!
