//! Exporting orders as CSV.
//!
//! The CSV encoding itself is done by the `csv` crate; this module decides
//! what the rows are and checks what comes back.

use vstd::prelude::*;
use vstd::utf8::{decode_utf8, encode_utf8, valid_utf8};
use crate::models::{Order, OrderItem, OrderItemV, OrderV};
use crate::text::{digit, i64_to_string, int_text, nat_text, push_char, push_str};

verus! {

/// A `csv::Writer` with the default configuration, writing into a vector
/// of bytes. Verus cannot take the writer's own declaration (its bound,
/// `std::io::Write`, is a trait it does not know), so the writer is held
/// here, out of Verus's sight, and spoken of through the names below.
#[verifier::external_body]
pub struct CsvSink {
    w: csv::Writer<Vec<u8>>,
}

/// The bytes the writer has been given so far (written or still buffered).
pub uninterp spec fn csv_output(w: CsvSink) -> Seq<u8>;

/// The number of fields of the first record the writer wrote, if any.
pub uninterp spec fn csv_record_width(w: CsvSink) -> Option<nat>;

/// `f` with every double quote doubled.
pub open spec fn double_quotes(f: Seq<u8>) -> Seq<u8>
    decreases f.len(),
{
    if f.len() == 0 {
        Seq::empty()
    } else if f.last() == 34u8 {
        double_quotes(f.drop_last()) + seq![34u8, 34u8]
    } else {
        double_quotes(f.drop_last()).push(f.last())
    }
}

/// A field needs quotes when it holds a comma, a double quote, a carriage
/// return or a line feed.
pub open spec fn needs_quotes(f: Seq<u8>) -> bool {
    f.contains(44u8) || f.contains(34u8) || f.contains(13u8) || f.contains(10u8)
}

/// One field as the default CSV configuration writes it: in double quotes,
/// with its quotes doubled, where it needs quotes; as it is otherwise.
pub open spec fn csv_field(f: Seq<u8>) -> Seq<u8> {
    if needs_quotes(f) {
        seq![34u8] + double_quotes(f) + seq![34u8]
    } else {
        f
    }
}

/// The fields written one after the other, separated by commas.
pub open spec fn csv_joined(fields: Seq<Seq<u8>>) -> Seq<u8>
    decreases fields.len(),
{
    if fields.len() == 0 {
        Seq::empty()
    } else if fields.len() == 1 {
        csv_field(fields[0])
    } else {
        csv_joined(fields.drop_last()) + seq![44u8] + csv_field(fields.last())
    }
}

/// The bytes with which a `csv::Writer` in the default configuration
/// (comma, double quotes doubled, quoting where necessary, `\n` after each
/// record) writes one record: the fields separated by commas, then a line
/// feed. A record with no bytes in it (no field, or one empty field) is
/// written as two double quotes.
pub open spec fn csv_record(fields: Seq<Seq<u8>>) -> Seq<u8> {
    let body = csv_joined(fields);
    if body.len() == 0 {
        seq![34u8, 34u8, 10u8]
    } else {
        body.push(10u8)
    }
}

/// The UTF-8 encodings of a list of texts.
pub open spec fn utf8_fields(fs: Seq<Seq<char>>) -> Seq<Seq<u8>> {
    Seq::new(fs.len(), |i: int| encode_utf8(fs[i]))
}

/// The views of a list of strings.
pub open spec fn string_views(v: Seq<String>) -> Seq<Seq<char>> {
    Seq::new(v.len(), |i: int| v[i]@)
}

/// Creates a CSV writer with the default configuration over an empty vector.
///
/// Calls `csv::Writer::from_writer`; the contract claims that nothing has
/// been given to the new writer and that it has written no record.
#[verifier::external_body]
fn csv_writer_new() -> (w: CsvSink)
    ensures
        csv_output(w) == Seq::<u8>::empty(),
        csv_record_width(w) is None,
{
    CsvSink { w: csv::Writer::from_writer(Vec::new()) }
}

/// Writes one record of the writer's width.
///
/// Calls `csv::Writer::write_record`. The contract claims what its source
/// shows for a writer over a vector (whose writes never fail) in the
/// default, non-flexible configuration: a record with as many fields as the
/// first record (or the first record itself) is accepted and its encoding
/// (`csv_record`) is appended. A record of another width is refused only
/// after its fields were written, which leaves the writer unusable; the
/// `requires` keeps such records out, so nothing is claimed of them.
#[verifier::external_body]
fn csv_write_record(w: &mut CsvSink, fields: &Vec<String>) -> (ok: bool)
    requires
        csv_record_width(*old(w)) matches Some(m) ==> m == fields@.len(),
    ensures
        ok,
        csv_output(*final(w)) == csv_output(*old(w)) + csv_record(utf8_fields(string_views(fields@))),
        csv_record_width(*final(w)) == Some(fields@.len()),
{
    w.w.write_record(fields.iter()).is_ok()
}

/// Flushes the writer and returns the bytes it wrote.
///
/// Calls `csv::Writer::into_inner`. The contract claims that for a writer
/// over a vector (whose flush never fails) the call succeeds and returns
/// everything the writer was given.
#[verifier::external_body]
fn csv_into_bytes(w: CsvSink) -> (r: Option<Vec<u8>>)
    ensures
        r is Some,
        r.unwrap()@ == csv_output(w),
{
    w.w.into_inner().ok()
}

/// Decodes UTF-8 bytes into a string.
///
/// Calls `String::from_utf8`, which succeeds exactly on valid UTF-8 and then
/// holds the decoded characters; on failure the message is the error's
/// text, of which the contract says nothing.
#[verifier::external_body]
fn utf8_string(bytes: Vec<u8>) -> (r: Result<String, String>)
    ensures
        r is Ok <==> valid_utf8(bytes@),
        r matches Ok(s) ==> s@ == decode_utf8(bytes@),
{
    match String::from_utf8(bytes) {
        Ok(s) => Ok(s),
        Err(e) => Err(e.to_string()),
    }
}

/// An amount in cents written as a decimal number of currency units, the
/// way a floating-point number prints (`4.6`, `4.05`, `4`, `-0.5`).
pub open spec fn cents_text(c: int) -> Seq<char> {
    let a: nat = if c < 0 { (-c) as nat } else { c as nat };
    let whole = a / 100;
    let frac = a % 100;
    let sign: Seq<char> = if c < 0 { seq!['-'] } else { Seq::empty() };
    if frac == 0 {
        sign + nat_text(whole)
    } else if frac % 10 == 0 {
        sign + nat_text(whole) + seq!['.', digit((frac / 10) as int)]
    } else {
        sign + nat_text(whole) + seq!['.', digit((frac / 10) as int), digit((frac % 10) as int)]
    }
}

/// Writes an amount in cents as a decimal number of currency units.
pub fn cents_to_string(c: i32) -> (r: String)
    ensures
        r@ == cents_text(c as int),
{
    let a: i64 = if c < 0 { -(c as i64) } else { c as i64 };
    let whole = a / 100;
    let frac = a % 100;
    let mut r = String::new();
    if c < 0 {
        push_char(&mut r, '-');
    }
    let w = i64_to_string(whole);
    push_str(&mut r, w.as_str());
    if frac != 0 {
        push_char(&mut r, '.');
        push_char(&mut r, digit_of(frac / 10));
        if frac % 10 != 0 {
            push_char(&mut r, digit_of(frac % 10));
        }
    }
    proof {
        let sign: Seq<char> = if c < 0 { seq!['-'] } else { Seq::empty() };
        assert(int_text(whole as int) == nat_text(whole as nat));
        if frac == 0 {
            assert(r@ =~= sign + nat_text(whole as nat));
        } else if frac % 10 == 0 {
            assert(r@ =~= sign + nat_text(whole as nat) + seq!['.', digit((frac / 10) as int)]);
        } else {
            assert(r@ =~= sign + nat_text(whole as nat) + seq!['.', digit((frac / 10) as int), digit((frac % 10) as int)]);
        }
    }
    r
}

fn digit_of(d: i64) -> (c: char)
    requires
        0 <= d < 10,
    ensures
        c == digit(d as int),
{
    if d == 0 { '0' }
    else if d == 1 { '1' }
    else if d == 2 { '2' }
    else if d == 3 { '3' }
    else if d == 4 { '4' }
    else if d == 5 { '5' }
    else if d == 6 { '6' }
    else if d == 7 { '7' }
    else if d == 8 { '8' }
    else { '9' }
}

/// `list` joined with `sep` between consecutive entries.
pub open spec fn join(list: Seq<Seq<char>>, sep: Seq<char>) -> Seq<char>
    decreases list.len(),
{
    if list.len() == 0 {
        Seq::empty()
    } else if list.len() == 1 {
        list[0]
    } else {
        join(list.drop_last(), sep) + sep + list.last()
    }
}

/// How an order line is listed: its name, " x", and its quantity.
pub open spec fn item_text(it: OrderItemV) -> Seq<char> {
    it.name + " x"@ + int_text(it.quantity as int)
}

/// The lines of an order, listed and separated by "; ".
pub open spec fn items_text(items: Seq<OrderItemV>) -> Seq<char> {
    join(Seq::new(items.len(), |i: int| item_text(items[i])), "; "@)
}

/// The header of the export.
pub open spec fn csv_header() -> Seq<Seq<char>> {
    seq!["Order ID"@, "Date"@, "Total (cents)"@, "Items"@]
}

/// The fields of an order in the export: id, date, total, lines.
pub open spec fn order_fields(o: OrderV) -> Seq<Seq<char>> {
    seq![int_text(o.id as int), o.created_at, cents_text(o.total_cents as int), items_text(o.items)]
}

/// The encoded records of a list of orders, one after the other.
pub open spec fn order_records(orders: Seq<OrderV>) -> Seq<u8>
    decreases orders.len(),
{
    if orders.len() == 0 {
        Seq::empty()
    } else {
        order_records(orders.drop_last()) + csv_record(utf8_fields(order_fields(orders.last())))
    }
}

/// The bytes of the export: the header record, then one record per order.
pub open spec fn csv_bytes(orders: Seq<OrderV>) -> Seq<u8> {
    csv_record(utf8_fields(csv_header())) + order_records(orders)
}

/// Lists the lines of an order, separated by "; ".
pub fn items_summary(items: &Vec<OrderItem>) -> (r: String)
    ensures
        r@ == items_text(items.deep_view()),
{
    let ghost texts = Seq::new(items@.len(), |i: int| item_text(items@[i]@));
    let mut r = String::new();
    let mut i: usize = 0;
    while i < items.len()
        invariant
            0 <= i <= items@.len(),
            texts == Seq::new(items@.len(), |i: int| item_text(items@[i]@)),
            r@ == join(texts.take(i as int), "; "@),
        decreases items@.len() - i,
    {
        let it = &items[i];
        let ghost before = r@;
        if i > 0 {
            push_str(&mut r, "; ");
        }
        push_str(&mut r, it.name.as_str());
        push_str(&mut r, " x");
        let q = i64_to_string(it.quantity as i64);
        push_str(&mut r, q.as_str());
        proof {
            let next = texts.take(i + 1);
            assert(next.drop_last() =~= texts.take(i as int));
            assert(next.last() == item_text(items@[i as int]@));
            if i == 0 {
                assert(r@ =~= next[0]);
            } else {
                assert(r@ =~= before + "; "@ + next.last());
            }
        }
        i = i + 1;
    }
    assert(texts.take(i as int) =~= texts);
    assert(Seq::new(items.deep_view().len(), |j: int| item_text(items.deep_view()[j])) =~= texts);
    r
}

/// The header row of the export.
pub fn csv_header_row() -> (r: Vec<String>)
    ensures
        string_views(r@) == csv_header(),
{
    let mut r: Vec<String> = Vec::new();
    r.push(String::from_str("Order ID"));
    r.push(String::from_str("Date"));
    r.push(String::from_str("Total (cents)"));
    r.push(String::from_str("Items"));
    assert(string_views(r@) =~= csv_header());
    r
}

/// The row of an order in the export.
pub fn csv_row_for_order(o: &Order) -> (r: Vec<String>)
    ensures
        string_views(r@) == order_fields(o@),
{
    let mut r: Vec<String> = Vec::new();
    r.push(i64_to_string(o.id));
    r.push(o.created_at.clone());
    r.push(cents_to_string(o.total_cents));
    r.push(items_summary(&o.items));
    assert(string_views(r@) =~= order_fields(o@));
    r
}

/// Exports orders as CSV text: a header record ("Order ID", "Date",
/// "Total (cents)", "Items"), then one record per order with its id, date,
/// total and lines ("name xquantity", separated by "; ").
pub fn create_csv(orders: &Vec<Order>) -> (r: Result<String, String>)
    ensures
        r is Ok <==> valid_utf8(csv_bytes(orders.deep_view())),
        r matches Ok(s) ==> s@ == decode_utf8(csv_bytes(orders.deep_view())),
{
    let ghost ov = orders.deep_view();
    let mut w = csv_writer_new();
    let header = csv_header_row();
    assert(header@.len() == 4) by {
        assert(string_views(header@).len() == header@.len());
    }
    let ok = csv_write_record(&mut w, &header);
    assert(ok);
    let mut i: usize = 0;
    assert(ov.take(0) =~= Seq::<OrderV>::empty());
    while i < orders.len()
        invariant
            0 <= i <= orders@.len(),
            ov == orders.deep_view(),
            csv_output(w) == csv_record(utf8_fields(csv_header())) + order_records(ov.take(i as int)),
            csv_record_width(w) == Some(4nat),
        decreases orders@.len() - i,
    {
        let row = csv_row_for_order(&orders[i]);
        assert(ov[i as int] == orders@[i as int]@);
        assert(row@.len() == 4) by {
            assert(string_views(row@).len() == row@.len());
            assert(order_fields(ov[i as int]).len() == 4);
        }
        let ok = csv_write_record(&mut w, &row);
        assert(ok);
        proof {
            let next = ov.take(i + 1);
            assert(next.drop_last() =~= ov.take(i as int));
            assert(next.last() == ov[i as int]);
        }
        i = i + 1;
    }
    assert(ov.take(i as int) =~= ov);
    let bytes = csv_into_bytes(w).unwrap();
    utf8_string(bytes)
}

} // verus!
