//! Tables as delimited text: one CSV record per entry, the key's tokens
//! followed by the count in decimal.
use crate::filter::views;
use crate::table::{key_of, Row};
use vstd::prelude::*;
use vstd::utf8::encode_utf8;

verus! {

/// A character that forces its field into quotes: the delimiter, the quote,
/// and the line separators.
pub open spec fn special_char(c: char) -> bool {
    c == ',' || c == '"' || c == '\r' || c == '\n'
}

/// Whether a field must be quoted.
pub open spec fn needs_quotes(f: Seq<char>) -> bool {
    exists|i: int| 0 <= i < f.len() && special_char(f[i])
}

/// `f` with each quote doubled.
pub open spec fn double_quotes(f: Seq<char>) -> Seq<char>
    decreases f.len(),
{
    if f.len() == 0 {
        Seq::empty()
    } else {
        double_quotes(f.drop_last()) + if f.last() == '"' {
            seq!['"', '"']
        } else {
            seq![f.last()]
        }
    }
}

/// A field as written: in quotes, inner quotes doubled, where it holds a
/// special character; as it is otherwise.
pub open spec fn csv_field(f: Seq<char>) -> Seq<char> {
    if needs_quotes(f) {
        seq!['"'] + double_quotes(f) + seq!['"']
    } else {
        f
    }
}

/// The written fields, separated by commas.
pub open spec fn joined_fields(fs: Seq<Seq<char>>) -> Seq<char>
    decreases fs.len(),
{
    if fs.len() == 0 {
        Seq::empty()
    } else if fs.len() == 1 {
        csv_field(fs[0])
    } else {
        joined_fields(fs.drop_last()) + seq![','] + csv_field(fs.last())
    }
}

/// The text of one CSV record: its joined fields (a pair of quotes when
/// they come to nothing) and a line feed.
pub open spec fn csv_record_text(fs: Seq<Seq<char>>) -> Seq<char> {
    (if joined_fields(fs).len() == 0 {
        seq!['"', '"']
    } else {
        joined_fields(fs)
    }) + seq!['\n']
}

/// The decimal digits of `n`, most significant first.
pub open spec fn decimal(n: nat) -> Seq<char>
    decreases n,
{
    if n < 10 {
        seq![(n + 48) as char]
    } else {
        decimal(n / 10).push(((n % 10) + 48) as char)
    }
}

/// The decimal digit of `d`, which is below ten.
fn digit_text(d: u64) -> (r: &'static str)
    requires
        d < 10,
    ensures
        r@ == seq![(d + 48) as char],
{
    proof {
        reveal_strlit("0");
        reveal_strlit("1");
        reveal_strlit("2");
        reveal_strlit("3");
        reveal_strlit("4");
        reveal_strlit("5");
        reveal_strlit("6");
        reveal_strlit("7");
        reveal_strlit("8");
        reveal_strlit("9");
    }
    let r = match d {
        0 => "0",
        1 => "1",
        2 => "2",
        3 => "3",
        4 => "4",
        5 => "5",
        6 => "6",
        7 => "7",
        8 => "8",
        _ => "9",
    };
    assert(r@ =~= seq![(d + 48) as char]);
    r
}

/// Appends the decimal digits of `n` to `s`.
fn push_decimal(s: &mut String, n: u64)
    ensures
        final(s)@ == old(s)@ + decimal(n as nat),
    decreases n,
{
    if n >= 10 {
        push_decimal(s, n / 10);
    }
    s.append(digit_text(n % 10));
    proof {
        if n >= 10 {
            assert(old(s)@ + decimal((n / 10) as nat) + seq![((n % 10) + 48) as char] =~= old(s)@
                + decimal(n as nat));
        } else {
            assert(n % 10 == n);
            assert(old(s)@ + seq![((n % 10) + 48) as char] =~= old(s)@ + decimal(n as nat));
        }
    }
}

/// The decimal digits of `n`.
fn count_text(n: u64) -> (r: String)
    ensures
        r@ == decimal(n as nat),
{
    let mut s = String::new();
    push_decimal(&mut s, n);
    assert(s@ =~= decimal(n as nat));
    s
}

/// Relies on `csv::Writer::from_writer` over a byte vector, `write_record`
/// and `into_inner`, with the default settings (comma, double quote, quoting
/// only where necessary, quotes doubled, line feed terminator, no comment
/// character): the UTF-8 bytes of the record's text. A fresh writer checks
/// no field count on its first record and writing to a vector cannot fail,
/// so the record is always written.
#[verifier::external_body]
fn csv_record(fields: &Vec<String>) -> (r: Option<Vec<u8>>)
    ensures
        r is Some,
        r is Some ==> r->0@ == encode_utf8(csv_record_text(views(fields@))),
{
    let mut w = csv::Writer::from_writer(Vec::new());
    match w.write_record(fields) {
        Ok(()) => w.into_inner().ok(),
        Err(_) => None,
    }
}

/// The fields of a row: its key's tokens, then its count.
pub open spec fn row_fields(row: Row) -> Seq<Seq<char>> {
    key_of(row.0).push(decimal(row.1 as nat))
}

/// The CSV bytes of `rows`, record after record.
pub open spec fn rows_csv(rows: Seq<Row>) -> Seq<u8>
    decreases rows.len(),
{
    if rows.len() == 0 {
        Seq::empty()
    } else {
        rows_csv(rows.drop_last()) + encode_utf8(csv_record_text(row_fields(rows.last())))
    }
}

/// The CSV text of `rows`: for each row, a record of its key's tokens and
/// its count.
pub fn encode_rows(rows: &Vec<Row>) -> (r: Vec<u8>)
    ensures
        r@ == rows_csv(rows@),
{
    let mut out: Vec<u8> = Vec::new();
    let n = rows.len();
    let mut i: usize = 0;
    proof {
        assert(rows_csv(rows@.subrange(0, 0)) =~= out@);
    }
    while i < n
        invariant
            n == rows@.len(),
            i <= n,
            out@ == rows_csv(rows@.subrange(0, i as int)),
        decreases n - i,
    {
        let row = &rows[i];
        let mut fields = row.0.clone();
        let ghost key = fields@;
        fields.push(count_text(row.1));
        proof {
            assert(views(row.0@) =~= views(key)) by {
                assert forall|j: int| 0 <= j < key.len() implies #[trigger] key[j]@ == row.0@[j]@ by {
                    assert(vstd::pervasive::cloned::<String>(row.0@[j], key[j]));
                }
            }
            assert(views(fields@) =~= row_fields(*row));
        }
        let mut bytes = csv_record(&fields).unwrap();
        let ghost before = out@;
        out.append(&mut bytes);
        proof {
            let pre = rows@.subrange(0, i + 1);
            assert(pre.drop_last() =~= rows@.subrange(0, i as int));
            assert(pre.last() == *row);
            assert(out@ =~= before + encode_utf8(csv_record_text(row_fields(*row))));
        }
        i = i + 1;
    }
    proof {
        assert(rows@.subrange(0, n as int) =~= rows@);
    }
    out
}

} // verus!
