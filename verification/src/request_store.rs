//! The catalog of requests that were run: a relation of stored records with
//! one record for each group, method and URL, and the list of entries that
//! is shown for the active group.

use crate::request::{Request, Response};
use crate::text::{
    chars_of, contains_text, lemma_lex_asymmetric, lemma_lex_total, lemma_lex_transitive,
    lex_less, occurs_in, text_less,
};
use vstd::prelude::*;
use vstd::string::StringExecFns;

verus! {

/// The largest number of entries that a listing holds.
pub const LIMIT: usize = 200;

/// One stored request with the response it got.
#[derive(Debug, Clone)]
pub struct StoredRecord {
    pub group_id: String,
    pub method: String,
    pub url: String,
    pub request_raw: String,
    pub response_body: String,
    pub title: String,
}

/// The content of a stored record.
pub struct RecordView {
    pub group_id: Seq<char>,
    pub method: Seq<char>,
    pub url: Seq<char>,
    pub request_raw: Seq<char>,
    pub response_body: Seq<char>,
    pub title: Seq<char>,
}

impl View for StoredRecord {
    type V = RecordView;

    open spec fn view(&self) -> RecordView {
        RecordView {
            group_id: self.group_id@,
            method: self.method@,
            url: self.url@,
            request_raw: self.request_raw@,
            response_body: self.response_body@,
            title: self.title@,
        }
    }
}

/// One entry of a listing.
#[derive(Debug, Clone)]
pub struct Row {
    pub method: String,
    pub url: String,
    pub title: String,
}

/// The content of an entry.
pub struct RowView {
    pub method: Seq<char>,
    pub url: Seq<char>,
    pub title: Seq<char>,
}

impl View for Row {
    type V = RowView;

    open spec fn view(&self) -> RowView {
        RowView { method: self.method@, url: self.url@, title: self.title@ }
    }
}

/// The content of a relation: its records.
pub type Rows = Seq<RecordView>;

/// Whether `r` is the record of the given group, method and URL.
pub open spec fn keyed(r: RecordView, g: Seq<char>, m: Seq<char>, u: Seq<char>) -> bool {
    r.group_id == g && r.method == m && r.url == u
}

/// The index of the first record at or after `from` with the given key, or
/// the number of records.
pub open spec fn row_from(rows: Rows, g: Seq<char>, m: Seq<char>, u: Seq<char>, from: int) -> int
    decreases rows.len() - from,
{
    if from < 0 || from >= rows.len() {
        rows.len() as int
    } else if keyed(rows[from], g, m, u) {
        from
    } else {
        row_from(rows, g, m, u, from + 1)
    }
}

/// The index of the record with the given key, or the number of records.
pub open spec fn row_index(rows: Rows, g: Seq<char>, m: Seq<char>, u: Seq<char>) -> int {
    row_from(rows, g, m, u, 0)
}

/// The record with the given key.
pub open spec fn held(rows: Rows, g: Seq<char>, m: Seq<char>, u: Seq<char>) -> Option<
    RecordView,
> {
    let i = row_index(rows, g, m, u);
    if i < rows.len() {
        Some(rows[i])
    } else {
        None
    }
}

/// No two records have the same group, method and URL.
pub open spec fn distinct_rows(rows: Rows) -> bool {
    forall|i: int, j: int|
        0 <= i < j < rows.len() ==> !keyed(
            #[trigger] rows[j],
            (#[trigger] rows[i]).group_id,
            rows[i].method,
            rows[i].url,
        )
}

/// How many records have the given key.
pub open spec fn key_count(rows: Rows, g: Seq<char>, m: Seq<char>, u: Seq<char>) -> nat
    decreases rows.len(),
{
    if rows.len() == 0 {
        0
    } else {
        key_count(rows.drop_last(), g, m, u) + if keyed(rows.last(), g, m, u) {
            1nat
        } else {
            0nat
        }
    }
}

/// The relation after `rec` was written: it replaces the record with its
/// key, or is added.
pub open spec fn upserted(rows: Rows, rec: RecordView) -> Rows {
    let i = row_index(rows, rec.group_id, rec.method, rec.url);
    if i < rows.len() {
        rows.update(i, rec)
    } else {
        rows.push(rec)
    }
}

/// The relation without the record of the given key.
pub open spec fn removed(rows: Rows, g: Seq<char>, m: Seq<char>, u: Seq<char>) -> Rows {
    let i = row_index(rows, g, m, u);
    if i < rows.len() {
        rows.remove(i)
    } else {
        rows
    }
}

/// The relation after the record of the given key got the title `title`.
pub open spec fn retitled(
    rows: Rows,
    g: Seq<char>,
    m: Seq<char>,
    u: Seq<char>,
    title: Seq<char>,
) -> Rows {
    let i = row_index(rows, g, m, u);
    if i < rows.len() {
        rows.update(i, RecordView { title, ..rows[i] })
    } else {
        rows
    }
}

/// The record that storing a request and its response writes: it keeps the
/// title that the key had, and has none when the key is new.
pub open spec fn put_record(
    rows: Rows,
    g: Seq<char>,
    m: Seq<char>,
    u: Seq<char>,
    raw: Seq<char>,
    body: Seq<char>,
) -> RecordView {
    RecordView {
        group_id: g,
        method: m,
        url: u,
        request_raw: raw,
        response_body: body,
        title: match held(rows, g, m, u) {
            Some(r) => r.title,
            None => Seq::empty(),
        },
    }
}

/// What `row_from` returns: the first record with the key at or after
/// `from`.
pub proof fn lemma_row_from(rows: Rows, g: Seq<char>, m: Seq<char>, u: Seq<char>, from: int)
    requires
        0 <= from <= rows.len(),
    ensures
        from <= row_from(rows, g, m, u, from) <= rows.len(),
        row_from(rows, g, m, u, from) < rows.len() ==> keyed(
            rows[row_from(rows, g, m, u, from)],
            g,
            m,
            u,
        ),
        forall|k: int| from <= k < row_from(rows, g, m, u, from) ==> !keyed(#[trigger] rows[k], g, m, u),
    decreases rows.len() - from,
{
    if from < rows.len() && !keyed(rows[from], g, m, u) {
        lemma_row_from(rows, g, m, u, from + 1);
    }
}

/// The stored requests of all groups.
#[derive(Debug, Clone)]
pub struct Table {
    rows: Vec<StoredRecord>,
}

impl View for Table {
    type V = Rows;

    closed spec fn view(&self) -> Rows {
        Seq::new(self.rows@.len(), |i: int| self.rows@[i]@)
    }
}

impl Table {
    /// There is one record for each group, method and URL.
    pub open spec fn wf(&self) -> bool {
        distinct_rows(self@)
    }

    /// The relation without records.
    pub fn new() -> (out: Self)
        ensures
            out@ == Seq::<RecordView>::empty(),
            out.wf(),
    {
        let out = Table { rows: Vec::new() };
        proof {
            assert(out@ =~= Seq::<RecordView>::empty());
        }
        out
    }

    /// The number of records.
    pub fn len(&self) -> (n: usize)
        ensures
            n == self@.len(),
    {
        self.rows.len()
    }

    /// The record at position `i`.
    pub fn record_at(&self, i: usize) -> (rec: &StoredRecord)
        requires
            i < self@.len(),
        ensures
            rec@ == self@[i as int],
    {
        &self.rows[i]
    }

    /// Writes `rec` in the place of the record with its key, or adds it.
    pub fn store(&mut self, rec: StoredRecord)
        requires
            old(self).wf(),
        ensures
            final(self)@ == upserted(old(self)@, rec@),
            final(self).wf(),
    {
        let at = self.position(rec.group_id.as_str(), rec.method.as_str(), rec.url.as_str());
        let ghost before = self@;
        let ghost r = rec@;
        proof {
            lemma_upserted(before, r);
        }
        if at < self.rows.len() {
            self.rows.set(at, rec);
            proof {
                assert(self@ =~= before.update(at as int, r));
            }
        } else {
            self.rows.push(rec);
            proof {
                assert(self@ =~= before.push(r));
            }
        }
    }

    /// The position of the record with the given key, or `len()`.
    pub fn position(&self, group_id: &str, method: &str, url: &str) -> (at: usize)
        ensures
            at == row_index(self@, group_id@, method@, url@),
            at <= self@.len(),
    {
        let g = group_id.to_owned();
        let m = method.to_owned();
        let u = url.to_owned();
        let n = self.rows.len();
        let mut i: usize = 0;
        while i < n
            invariant
                0 <= i <= n,
                n == self@.len(),
                n == self.rows@.len(),
                g@ == group_id@,
                m@ == method@,
                u@ == url@,
                row_index(self@, group_id@, method@, url@) == row_from(
                    self@,
                    group_id@,
                    method@,
                    url@,
                    i as int,
                ),
            decreases n - i,
        {
            if self.rows[i].group_id == g && self.rows[i].method == m && self.rows[i].url == u {
                return i;
            }
            i += 1;
        }
        n
    }
}

/// The request text and the response body stored under the key.
pub fn find(table: &Table, group_id: &str, method: &str, url: &str) -> (out: Option<
    (String, String),
>)
    ensures
        match out {
            Some((raw, body)) => held(table@, group_id@, method@, url@) matches Some(r) && raw@
                == r.request_raw && body@ == r.response_body,
            None => held(table@, group_id@, method@, url@) is None,
        },
{
    let at = table.position(group_id, method, url);
    if at < table.rows.len() {
        Some((table.rows[at].request_raw.clone(), table.rows[at].response_body.clone()))
    } else {
        None
    }
}

/// The title stored under the key; empty when the record has none.
pub fn find_name(table: &Table, group_id: &str, method: &str, url: &str) -> (out: Option<String>)
    ensures
        match out {
            Some(title) => held(table@, group_id@, method@, url@) matches Some(r) && title@
                == r.title,
            None => held(table@, group_id@, method@, url@) is None,
        },
{
    let at = table.position(group_id, method, url);
    if at < table.rows.len() {
        Some(table.rows[at].title.clone())
    } else {
        None
    }
}

/// Stores `request` and the body of its response under the group, method
/// and URL, in the place of what was stored there. The title of the key
/// stays. Returns the record as written.
pub fn update(table: &mut Table, request: &Request, response: &str, group_id: &str) -> (out:
    StoredRecord)
    requires
        old(table).wf(),
    ensures
        out@ == put_record(
            old(table)@,
            group_id@,
            request.method@,
            request.url@,
            request.raw@,
            response@,
        ),
        final(table)@ == upserted(old(table)@, out@),
        final(table).wf(),
{
    let at = table.position(group_id, request.method.as_str(), request.url.as_str());
    let title = if at < table.rows.len() {
        table.rows[at].title.clone()
    } else {
        String::new()
    };
    let ghost before = table@;
    proof {
        lemma_row_from(before, group_id@, request.method@, request.url@, 0);
    }
    let rec = StoredRecord {
        group_id: group_id.to_owned(),
        method: request.method.clone(),
        url: request.url.clone(),
        request_raw: request.raw.clone(),
        response_body: response.to_owned(),
        title: title.clone(),
    };
    let out = StoredRecord {
        group_id: group_id.to_owned(),
        method: request.method.clone(),
        url: request.url.clone(),
        request_raw: request.raw.clone(),
        response_body: response.to_owned(),
        title,
    };
    if at < table.rows.len() {
        table.rows.set(at, rec);
        proof {
            assert(table@ =~= before.update(at as int, out@));
        }
    } else {
        table.rows.push(rec);
        proof {
            assert(table@ =~= before.push(out@));
        }
    }
    out
}

/// Removes the record stored under the key.
pub fn delete(table: &mut Table, group_id: &str, method: &str, url: &str)
    requires
        old(table).wf(),
    ensures
        final(table)@ == removed(old(table)@, group_id@, method@, url@),
        final(table).wf(),
{
    let at = table.position(group_id, method, url);
    let ghost before = table@;
    if at < table.rows.len() {
        table.rows.remove(at);
        proof {
            assert(table@ =~= before.remove(at as int));
        }
    }
}

/// Gives the record stored under the key the title `name`.
pub fn rename(table: &mut Table, group_id: &str, method: &str, url: &str, name: &str)
    requires
        old(table).wf(),
    ensures
        final(table)@ == retitled(old(table)@, group_id@, method@, url@, name@),
        final(table).wf(),
{
    let at = table.position(group_id, method, url);
    let ghost before = table@;
    if at < table.rows.len() {
        let rec = StoredRecord {
            group_id: table.rows[at].group_id.clone(),
            method: table.rows[at].method.clone(),
            url: table.rows[at].url.clone(),
            request_raw: table.rows[at].request_raw.clone(),
            response_body: table.rows[at].response_body.clone(),
            title: name.to_owned(),
        };
        table.rows.set(at, rec);
        proof {
            assert(table@ =~= before.update(
                at as int,
                RecordView { title: name@, ..before[at as int] },
            ));
        }
    }
}

/// Whether a record belongs to the listing of the group `g` under the filter
/// `filter`: an empty filter admits every record of the group, another one
/// those whose URL or title holds it.
pub open spec fn shown_in(r: RecordView, g: Seq<char>, filter: Seq<char>) -> bool {
    r.group_id == g && (filter.len() == 0 || occurs_in(r.url, filter) || occurs_in(
        r.title,
        filter,
    ))
}

/// The entry that lists a record.
pub open spec fn row_of(r: RecordView) -> RowView {
    RowView { method: r.method, url: r.url, title: r.title }
}

/// The order of a listing: by URL, and by method among equal URLs.
pub open spec fn row_before(a: RowView, b: RowView) -> bool {
    lex_less(a.url, b.url) || (a.url == b.url && lex_less(a.method, b.method))
}

/// Each entry comes before all that follow it.
pub open spec fn sorted_rows(out: Seq<RowView>) -> bool {
    forall|i: int, j: int| 0 <= i < j < out.len() ==> row_before(#[trigger] out[i], #[trigger] out[j])
}

/// The contents of a list of entries.
pub open spec fn row_views(rows: Seq<Row>) -> Seq<RowView> {
    Seq::new(rows.len(), |i: int| rows[i]@)
}

/// The text of an optional filter.
pub open spec fn filter_text(filter: Option<&str>) -> Seq<char> {
    match filter {
        Some(f) => f@,
        None => Seq::empty(),
    }
}

/// Whether `entry` lists one of the records `rows[..k]` that belong to the
/// listing of the group under the filter.
pub open spec fn has_source(
    rows: Rows,
    k: int,
    g: Seq<char>,
    filter: Seq<char>,
    entry: RowView,
) -> bool {
    exists|j: int| 0 <= j < k && shown_in(#[trigger] rows[j], g, filter) && entry == row_of(rows[j])
}

/// Whether `out` lists the records `rows[..k]` of the group under the
/// filter, all of them, in order.
pub open spec fn lists_all(
    rows: Rows,
    k: int,
    g: Seq<char>,
    filter: Seq<char>,
    out: Seq<RowView>,
) -> bool {
    &&& sorted_rows(out)
    &&& forall|i: int| 0 <= i < out.len() ==> has_source(rows, k, g, filter, #[trigger] out[i])
    &&& forall|j: int|
        0 <= j < k && shown_in(#[trigger] rows[j], g, filter) ==> out.contains(row_of(rows[j]))
}

/// Whether `out` is the listing of the group `g` under `filter`: at most
/// `LIMIT` entries, in order, each for a record that belongs to the listing,
/// and every such record is listed or comes after the last entry of a full
/// listing.
pub open spec fn is_listing(rows: Rows, g: Seq<char>, filter: Seq<char>, out: Seq<RowView>) -> bool {
    &&& out.len() <= LIMIT
    &&& sorted_rows(out)
    &&& forall|i: int|
        0 <= i < out.len() ==> has_source(rows, rows.len() as int, g, filter, #[trigger] out[i])
    &&& forall|j: int|
        0 <= j < rows.len() && shown_in(#[trigger] rows[j], g, filter) ==> out.contains(
            row_of(rows[j]),
        ) || (out.len() == LIMIT && row_before(out[LIMIT - 1], row_of(rows[j])))
}

/// Entries are ordered one way or the other unless they agree in method and
/// URL.
pub proof fn lemma_row_order_total(a: RowView, b: RowView)
    ensures
        row_before(a, b) || row_before(b, a) || (a.url == b.url && a.method == b.method),
{
    lemma_lex_total(a.url, b.url);
    lemma_lex_total(a.method, b.method);
}

/// The order of entries is transitive.
pub proof fn lemma_row_order_transitive(a: RowView, b: RowView, c: RowView)
    requires
        row_before(a, b),
        row_before(b, c),
    ensures
        row_before(a, c),
{
    lemma_lex_asymmetric(a.url, b.url);
    lemma_lex_asymmetric(b.url, c.url);
    if lex_less(a.url, b.url) && lex_less(b.url, c.url) {
        lemma_lex_transitive(a.url, b.url, c.url);
    }
    if a.url == b.url && b.url == c.url {
        lemma_lex_transitive(a.method, b.method, c.method);
    }
}

/// No entry comes before itself, and two entries are not ordered both ways.
pub proof fn lemma_row_order_asymmetric(a: RowView, b: RowView)
    ensures
        !(row_before(a, b) && row_before(b, a)),
{
    lemma_lex_asymmetric(a.url, b.url);
    lemma_lex_asymmetric(a.method, b.method);
}

/// Two entries of a listing that agree in method and URL are the same
/// entry.
proof fn lemma_same_key_same_entry(
    rows: Rows,
    g: Seq<char>,
    filter: Seq<char>,
    x: RowView,
    y: RowView,
)
    requires
        distinct_rows(rows),
        has_source(rows, rows.len() as int, g, filter, x),
        has_source(rows, rows.len() as int, g, filter, y),
        x.method == y.method,
        x.url == y.url,
    ensures
        x == y,
{
    let i = choose|j: int|
        0 <= j < rows.len() && shown_in(#[trigger] rows[j], g, filter) && x == row_of(rows[j]);
    let j = choose|j: int|
        0 <= j < rows.len() && shown_in(#[trigger] rows[j], g, filter) && y == row_of(rows[j]);
    if i < j {
        assert(keyed(rows[j], rows[i].group_id, rows[i].method, rows[i].url));
    } else if j < i {
        assert(keyed(rows[i], rows[j].group_id, rows[j].method, rows[j].url));
    }
}

/// An entry of one listing that the other listing must account for cannot
/// come before the entry that the other listing has at the same place, when
/// the two listings agree before that place.
proof fn lemma_listing_step(
    rows: Rows,
    g: Seq<char>,
    filter: Seq<char>,
    a: Seq<RowView>,
    b: Seq<RowView>,
    i: int,
)
    requires
        distinct_rows(rows),
        is_listing(rows, g, filter, a),
        is_listing(rows, g, filter, b),
        0 <= i < a.len(),
        i < b.len(),
        forall|k: int| 0 <= k < i ==> a[k] == b[k],
    ensures
        !row_before(a[i], b[i]),
{
    if row_before(a[i], b[i]) {
        lemma_row_order_asymmetric(a[i], b[i]);
        lemma_row_order_asymmetric(a[i], a[i]);
        assert(has_source(rows, rows.len() as int, g, filter, a[i]));
        let j = choose|j: int|
            0 <= j < rows.len() && shown_in(#[trigger] rows[j], g, filter) && a[i] == row_of(
                rows[j],
            );
        if b.contains(row_of(rows[j])) {
            let p = choose|p: int| 0 <= p < b.len() && b[p] == row_of(rows[j]);
            if p < i {
                assert(a[p] == b[p]);
                assert(row_before(a[p], a[i]));
            } else if p > i {
                assert(row_before(b[i], b[p]));
            }
        } else {
            assert(b.len() == LIMIT && row_before(b[LIMIT - 1], a[i]));
            if i < LIMIT - 1 {
                assert(row_before(b[i], b[LIMIT - 1]));
                lemma_row_order_transitive(b[i], b[LIMIT - 1], a[i]);
            }
        }
    }
}

/// Two listings of one relation agree on their first `i` entries.
proof fn lemma_listing_prefix(
    rows: Rows,
    g: Seq<char>,
    filter: Seq<char>,
    a: Seq<RowView>,
    b: Seq<RowView>,
    i: int,
)
    requires
        distinct_rows(rows),
        is_listing(rows, g, filter, a),
        is_listing(rows, g, filter, b),
        0 <= i <= a.len(),
        i <= b.len(),
    ensures
        forall|k: int| 0 <= k < i ==> a[k] == b[k],
    decreases i,
{
    if i > 0 {
        lemma_listing_prefix(rows, g, filter, a, b, i - 1);
        lemma_listing_step(rows, g, filter, a, b, i - 1);
        lemma_listing_step(rows, g, filter, b, a, i - 1);
        lemma_row_order_total(a[i - 1], b[i - 1]);
        assert(has_source(rows, rows.len() as int, g, filter, a[i - 1]));
        assert(has_source(rows, rows.len() as int, g, filter, b[i - 1]));
        lemma_same_key_same_entry(rows, g, filter, a[i - 1], b[i - 1]);
    }
}

/// A listing that is shorter than another lacks nothing that the other has.
proof fn lemma_listing_not_shorter(
    rows: Rows,
    g: Seq<char>,
    filter: Seq<char>,
    a: Seq<RowView>,
    b: Seq<RowView>,
)
    requires
        distinct_rows(rows),
        is_listing(rows, g, filter, a),
        is_listing(rows, g, filter, b),
    ensures
        a.len() >= b.len(),
{
    if a.len() < b.len() {
        let n = a.len() as int;
        lemma_listing_prefix(rows, g, filter, a, b, n);
        assert(has_source(rows, rows.len() as int, g, filter, b[n]));
        let j = choose|j: int|
            0 <= j < rows.len() && shown_in(#[trigger] rows[j], g, filter) && b[n] == row_of(
                rows[j],
            );
        assert(a.contains(row_of(rows[j])));
        let p = choose|p: int| 0 <= p < a.len() && a[p] == row_of(rows[j]);
        assert(b[p] == a[p]);
        assert(row_before(b[p], b[n]));
        lemma_row_order_asymmetric(b[n], b[n]);
    }
}

/// A group has one listing under a filter: the conditions of a listing
/// determine it.
pub proof fn lemma_listing_unique(
    rows: Rows,
    g: Seq<char>,
    filter: Seq<char>,
    a: Seq<RowView>,
    b: Seq<RowView>,
)
    requires
        distinct_rows(rows),
        is_listing(rows, g, filter, a),
        is_listing(rows, g, filter, b),
    ensures
        a == b,
{
    lemma_listing_not_shorter(rows, g, filter, a, b);
    lemma_listing_not_shorter(rows, g, filter, b, a);
    lemma_listing_prefix(rows, g, filter, a, b, a.len() as int);
    assert(a =~= b);
}

/// Whether `a` comes before `b` in a listing.
pub fn row_precedes(a: &Row, b: &Row) -> (out: bool)
    ensures
        out == row_before(a@, b@),
{
    text_less(a.url.as_str(), b.url.as_str()) || (a.url == b.url && text_less(
        a.method.as_str(),
        b.method.as_str(),
    ))
}

/// Whether a record belongs to the listing of a group under a filter.
fn belongs(rec: &StoredRecord, group: &String, filter: &Vec<char>) -> (out: bool)
    ensures
        out == shown_in(rec@, group@, filter@),
{
    if !(rec.group_id == *group) {
        return false;
    }
    if filter.len() == 0 {
        return true;
    }
    let url = chars_of(rec.url.as_str());
    if contains_text(&url, filter) {
        return true;
    }
    let title = chars_of(rec.title.as_str());
    contains_text(&title, filter)
}

/// Puts `row`, the entry of the record `rows[k]`, into the listing of the
/// records before it.
fn place(out: &mut Vec<Row>, row: Row, Ghost(rows): Ghost<Rows>, Ghost(k): Ghost<int>, Ghost(g): Ghost<Seq<char>>, Ghost(filter): Ghost<Seq<char>>)
    requires
        distinct_rows(rows),
        0 <= k < rows.len(),
        shown_in(rows[k], g, filter),
        row@ == row_of(rows[k]),
        lists_all(rows, k, g, filter, row_views(old(out)@)),
    ensures
        lists_all(rows, k + 1, g, filter, row_views(final(out)@)),
{
    let ghost before = row_views(out@);
    let n = out.len();
    let mut p: usize = 0;
    while p < n && row_precedes(&out[p], &row)
        invariant
            0 <= p <= n,
            n == out@.len(),
            before == row_views(out@),
            forall|i: int| 0 <= i < p ==> row_before(#[trigger] before[i], row@),
        decreases n - p,
    {
        p += 1;
    }
    let ghost new = row@;
    out.insert(p, row);
    proof {
        let after = row_views(out@);
        assert(after =~= before.insert(p as int, new));
        assert forall|i: int| p <= i < before.len() implies row_before(
            new,
            #[trigger] before[i],
        ) by {
            assert(has_source(rows, k, g, filter, before[p as int]));
            let j = choose|j: int|
                0 <= j < k && shown_in(#[trigger] rows[j], g, filter) && before[p as int]
                    == row_of(rows[j]);
            assert(!keyed(rows[k], rows[j].group_id, rows[j].method, rows[j].url));
            lemma_row_order_total(new, before[p as int]);
            if i > p {
                lemma_row_order_transitive(new, before[p as int], before[i]);
            }
        }
        assert forall|i: int, j: int| 0 <= i < j < after.len() implies row_before(
            #[trigger] after[i],
            #[trigger] after[j],
        ) by {
            if i < p && j > p {
                assert(after[i] == before[i] && after[j] == before[j - 1]);
            } else if i < p && j < p {
                assert(after[i] == before[i] && after[j] == before[j]);
            } else if i > p {
                assert(after[i] == before[i - 1] && after[j] == before[j - 1]);
            }
        }
        assert forall|i: int| 0 <= i < after.len() implies has_source(
            rows,
            k + 1,
            g,
            filter,
            #[trigger] after[i],
        ) by {
            if i == p {
                assert(after[i] == row_of(rows[k]));
            } else {
                let b = if i < p {
                    i
                } else {
                    i - 1
                };
                assert(after[i] == before[b]);
                assert(has_source(rows, k, g, filter, before[b]));
            }
        }
        assert forall|j: int| 0 <= j < k + 1 && shown_in(#[trigger] rows[j], g, filter) implies after.contains(
            row_of(rows[j]),
        ) by {
            if j == k {
                assert(after[p as int] == row_of(rows[j]));
            } else {
                assert(before.contains(row_of(rows[j])));
                let b = choose|b: int| 0 <= b < before.len() && before[b] == row_of(rows[j]);
                if b < p {
                    assert(after[b] == before[b]);
                } else {
                    assert(after[b + 1] == before[b]);
                }
            }
        }
    }
}

/// The listing of a group: its records whose URL or title holds `filter`
/// (all of them when the filter is absent or empty), ordered by URL and then
/// by method, cut off after `LIMIT` entries.
pub fn select(table: &Table, group_id: &str, filter: Option<&str>) -> (out: Vec<Row>)
    requires
        table.wf(),
    ensures
        is_listing(table@, group_id@, filter_text(filter), row_views(out@)),
{
    let group = group_id.to_owned();
    let pattern: Vec<char> = match filter {
        Some(f) => chars_of(f),
        None => Vec::new(),
    };
    let ghost rows = table@;
    let ghost g = group_id@;
    let ghost ft = filter_text(filter);
    let n = table.rows.len();
    let mut out: Vec<Row> = Vec::new();
    let mut k: usize = 0;
    while k < n
        invariant
            0 <= k <= n,
            n == table.rows@.len(),
            n == rows.len(),
            rows == table@,
            distinct_rows(rows),
            group@ == g,
            pattern@ == ft,
            lists_all(rows, k as int, g, ft, row_views(out@)),
        decreases n - k,
    {
        let rec = &table.rows[k];
        if belongs(rec, &group, &pattern) {
            let row = Row {
                method: rec.method.clone(),
                url: rec.url.clone(),
                title: rec.title.clone(),
            };
            place(&mut out, row, Ghost(rows), Ghost(k as int), Ghost(g), Ghost(ft));
        } else {
            proof {
                let cur = row_views(out@);
                assert(!shown_in(rows[k as int], g, ft));
                assert forall|i: int| 0 <= i < cur.len() implies has_source(
                    rows,
                    k + 1,
                    g,
                    ft,
                    #[trigger] cur[i],
                ) by {
                    assert(has_source(rows, k as int, g, ft, cur[i]));
                }
            }
        }
        k += 1;
    }
    let ghost full = row_views(out@);
    out.truncate(LIMIT);
    proof {
        let cut = row_views(out@);
        assert(cut =~= full.subrange(0, cut.len() as int));
        assert forall|i: int| 0 <= i < cut.len() implies has_source(
            rows,
            rows.len() as int,
            g,
            ft,
            #[trigger] cut[i],
        ) by {
            assert(cut[i] == full[i]);
        }
        assert forall|j: int| 0 <= j < rows.len() && shown_in(#[trigger] rows[j], g, ft) implies cut.contains(
            row_of(rows[j]),
        ) || (cut.len() == LIMIT && row_before(cut[LIMIT - 1], row_of(rows[j]))) by {
            assert(full.contains(row_of(rows[j])));
            let b = choose|b: int| 0 <= b < full.len() && full[b] == row_of(rows[j]);
            if b < cut.len() {
                assert(cut[b] == full[b]);
            } else {
                assert(cut[LIMIT - 1] == full[LIMIT - 1]);
            }
        }
        assert forall|i: int, j: int| 0 <= i < j < cut.len() implies row_before(
            #[trigger] cut[i],
            #[trigger] cut[j],
        ) by {
            assert(cut[i] == full[i] && cut[j] == full[j]);
        }
    }
    out
}

/// The index of the first entry at or after `from` with the given method
/// and URL, or the number of entries.
pub open spec fn shown_from(shown: Seq<RowView>, m: Seq<char>, u: Seq<char>, from: int) -> int
    decreases shown.len() - from,
{
    if from < 0 || from >= shown.len() {
        shown.len() as int
    } else if shown[from].method == m && shown[from].url == u {
        from
    } else {
        shown_from(shown, m, u, from + 1)
    }
}

/// Whether an entry with the given method and URL is shown.
pub open spec fn is_shown(shown: Seq<RowView>, m: Seq<char>, u: Seq<char>) -> bool {
    shown_from(shown, m, u, 0) < shown.len()
}

/// No two entries have the same method and URL.
pub open spec fn distinct_shown(shown: Seq<RowView>) -> bool {
    forall|i: int, j: int|
        0 <= i < j < shown.len() ==> !((#[trigger] shown[i]).method == (#[trigger] shown[j]).method
            && shown[i].url == shown[j].url)
}

/// The title under which a request without a title is shown: method, space,
/// URL.
pub open spec fn default_title(m: Seq<char>, u: Seq<char>) -> Seq<char> {
    m + seq![' '] + u
}

/// The entry of a request that was not shown before.
pub open spec fn fresh_entry(m: Seq<char>, u: Seq<char>) -> RowView {
    RowView { method: m, url: u, title: default_title(m, u) }
}

/// The entry with `title` as its title, or with the default title when
/// `title` is empty.
pub open spec fn titled(r: RowView, title: Seq<char>) -> RowView {
    RowView {
        title: if title.len() == 0 {
            default_title(r.method, r.url)
        } else {
            title
        },
        ..r
    }
}

/// A listing as it is shown: entries without a title get the default one.
pub open spec fn displayed(listing: Seq<RowView>) -> Seq<RowView> {
    Seq::new(listing.len(), |i: int| titled(listing[i], listing[i].title))
}

/// The shown entries after a request was stored: a request that was not
/// shown gets a fresh entry at the front.
pub open spec fn put_shown(shown: Seq<RowView>, m: Seq<char>, u: Seq<char>) -> Seq<RowView> {
    if is_shown(shown, m, u) {
        shown
    } else {
        seq![fresh_entry(m, u)] + shown
    }
}

/// The shown entries after the entry of the given method and URL was moved
/// to the front.
pub open spec fn promoted(shown: Seq<RowView>, m: Seq<char>, u: Seq<char>) -> Seq<RowView> {
    let i = shown_from(shown, m, u, 0);
    if i < shown.len() {
        seq![shown[i]] + shown.remove(i)
    } else {
        shown
    }
}

/// What `shown_from` returns: the first entry with the method and URL at or
/// after `from`.
pub proof fn lemma_shown_from(shown: Seq<RowView>, m: Seq<char>, u: Seq<char>, from: int)
    requires
        0 <= from <= shown.len(),
    ensures
        from <= shown_from(shown, m, u, from) <= shown.len(),
        shown_from(shown, m, u, from) < shown.len() ==> shown[shown_from(shown, m, u, from)].method
            == m && shown[shown_from(shown, m, u, from)].url == u,
        forall|k: int|
            from <= k < shown_from(shown, m, u, from) ==> !((#[trigger] shown[k]).method == m
                && shown[k].url == u),
    decreases shown.len() - from,
{
    if from < shown.len() && !(shown[from].method == m && shown[from].url == u) {
        lemma_shown_from(shown, m, u, from + 1);
    }
}

/// Entries in order have different methods or URLs.
pub proof fn lemma_sorted_is_distinct(out: Seq<RowView>)
    requires
        sorted_rows(out),
    ensures
        distinct_shown(out),
        distinct_shown(displayed(out)),
{
    assert forall|i: int, j: int| 0 <= i < j < out.len() implies !((#[trigger] out[i]).method == (
    #[trigger] out[j]).method && out[i].url == out[j].url) by {
        assert(row_before(out[i], out[j]));
        lemma_lex_asymmetric(out[i].url, out[j].url);
        lemma_lex_asymmetric(out[i].method, out[j].method);
    }
    let d = displayed(out);
    assert forall|i: int, j: int| 0 <= i < j < d.len() implies !((#[trigger] d[i]).method == (
    #[trigger] d[j]).method && d[i].url == d[j].url) by {
        assert(d[i].method == out[i].method && d[i].url == out[i].url);
        assert(d[j].method == out[j].method && d[j].url == out[j].url);
    }
}

/// Whether `shown` is the listing of the group under the filter, as it is
/// displayed.
pub open spec fn shows_listing(rows: Rows, g: Seq<char>, filter: Seq<char>, shown: Seq<RowView>) -> bool {
    exists|listing: Seq<RowView>|
        (#[trigger] is_listing(rows, g, filter, listing)) && shown == displayed(listing)
}

/// The title of a request that has none.
pub fn make_default_title(method: &str, url: &str) -> (out: String)
    ensures
        out@ == default_title(method@, url@),
{
    let mut t = method.to_owned();
    t.push(' ');
    t.append(url);
    proof {
        assert(t@ =~= default_title(method@, url@));
    }
    t
}

/// The catalog: the stored requests, and the entries shown for the active
/// group.
#[derive(Debug, Clone)]
pub struct RequestStore {
    table: Table,
    store: Vec<Row>,
    group_id: String,
}

impl RequestStore {
    /// The stored records.
    pub closed spec fn rows(&self) -> Rows {
        self.table@
    }

    /// The entries that are shown, first to last.
    pub closed spec fn shown(&self) -> Seq<RowView> {
        row_views(self.store@)
    }

    /// The id of the active group.
    pub closed spec fn group(&self) -> Seq<char> {
        self.group_id@
    }

    /// One record for each key, one entry for each method and URL.
    pub open spec fn wf(&self) -> bool {
        distinct_rows(self.rows()) && distinct_shown(self.shown())
    }

    /// An empty catalog whose active group is the default group.
    pub fn new() -> (out: Self)
        ensures
            out.rows() == Seq::<RecordView>::empty(),
            out.shown() == Seq::<RowView>::empty(),
            out.group() == Seq::<char>::empty(),
            out.wf(),
    {
        let out = RequestStore { table: Table::new(), store: Vec::new(), group_id: String::new() };
        proof {
            assert(out.shown() =~= Seq::<RowView>::empty());
        }
        out
    }

    /// A catalog over the records of `table`, with nothing shown and the
    /// default group active.
    pub fn with_table(table: Table) -> (out: Self)
        requires
            table.wf(),
        ensures
            out.rows() == table@,
            out.shown() == Seq::<RowView>::empty(),
            out.group() == Seq::<char>::empty(),
            out.wf(),
    {
        let out = RequestStore { table, store: Vec::new(), group_id: String::new() };
        proof {
            assert(out.shown() =~= Seq::<RowView>::empty());
        }
        out
    }

    /// The entries that are shown.
    pub fn get_store(&self) -> (out: &Vec<Row>)
        ensures
            row_views(out@) == self.shown(),
    {
        &self.store
    }

    /// The stored records.
    pub fn table(&self) -> (out: &Table)
        ensures
            out@ == self.rows(),
    {
        &self.table
    }

    /// The id of the active group.
    pub fn group_id(&self) -> (out: &String)
        ensures
            out@ == self.group(),
    {
        &self.group_id
    }

    /// Makes `group_id` the active group (the default group when absent)
    /// and shows its listing under `filter`, entries without a title under
    /// their default title.
    pub fn load(&mut self, group_id: Option<&str>, filter: Option<&str>)
        requires
            old(self).wf(),
        ensures
            final(self).rows() == old(self).rows(),
            final(self).group() == filter_text(group_id),
            shows_listing(
                old(self).rows(),
                filter_text(group_id),
                filter_text(filter),
                final(self).shown(),
            ),
            final(self).wf(),
    {
        let group = match group_id {
            Some(g) => g.to_owned(),
            None => String::new(),
        };
        let rows = select(&self.table, group.as_str(), filter);
        let ghost listing = row_views(rows@);
        let n = rows.len();
        let mut store: Vec<Row> = Vec::new();
        let mut i: usize = 0;
        while i < n
            invariant
                0 <= i <= n,
                n == rows@.len(),
                listing == row_views(rows@),
                store@.len() == i,
                forall|k: int| 0 <= k < i ==> (#[trigger] store@[k])@ == displayed(listing)[k],
            decreases n - i,
        {
            let row = &rows[i];
            let title = if row.title.as_str().is_empty() {
                make_default_title(row.method.as_str(), row.url.as_str())
            } else {
                row.title.clone()
            };
            store.push(Row { method: row.method.clone(), url: row.url.clone(), title });
            i += 1;
        }
        proof {
            assert(row_views(store@) =~= displayed(listing));
            lemma_sorted_is_distinct(listing);
            assert(is_listing(self.rows(), filter_text(group_id), filter_text(filter), listing));
        }
        self.store = store;
        self.group_id = group;
    }

    /// The position of the entry with the given method and URL, or the
    /// number of entries.
    fn shown_at(&self, method: &str, url: &str) -> (at: usize)
        ensures
            at == shown_from(self.shown(), method@, url@, 0),
            at <= self.shown().len(),
            self.shown().len() == self.store@.len(),
    {
        let m = method.to_owned();
        let u = url.to_owned();
        let n = self.store.len();
        let mut i: usize = 0;
        while i < n
            invariant
                0 <= i <= n,
                n == self.store@.len(),
                n == self.shown().len(),
                m@ == method@,
                u@ == url@,
                shown_from(self.shown(), method@, url@, 0) == shown_from(
                    self.shown(),
                    method@,
                    url@,
                    i as int,
                ),
            decreases n - i,
        {
            if self.store[i].method == m && self.store[i].url == u {
                return i;
            }
            i += 1;
        }
        n
    }

    /// Stores `request` with the body of `response` in the active group. A
    /// request that is not shown gets an entry at the front of what is
    /// shown. Returns the record as written.
    pub fn put(&mut self, request: &Request, response: &Response) -> (out: StoredRecord)
        requires
            old(self).wf(),
        ensures
            out@ == put_record(
                old(self).rows(),
                old(self).group(),
                request.method@,
                request.url@,
                request.raw@,
                response.body@,
            ),
            final(self).rows() == upserted(old(self).rows(), out@),
            final(self).shown() == put_shown(old(self).shown(), request.method@, request.url@),
            final(self).group() == old(self).group(),
            final(self).wf(),
    {
        let at = self.shown_at(request.method.as_str(), request.url.as_str());
        let ghost before = self.shown();
        proof {
            lemma_shown_from(before, request.method@, request.url@, 0);
        }
        if at >= self.store.len() {
            let title = make_default_title(request.method.as_str(), request.url.as_str());
            self.store.insert(
                0,
                Row { method: request.method.clone(), url: request.url.clone(), title },
            );
            proof {
                let fresh = fresh_entry(request.method@, request.url@);
                assert(self.shown() =~= seq![fresh] + before);
                assert forall|i: int, j: int| 0 <= i < j < self.shown().len() implies !((
                #[trigger] self.shown()[i]).method == (#[trigger] self.shown()[j]).method
                    && self.shown()[i].url == self.shown()[j].url) by {
                    assert(self.shown()[j] == before[j - 1]);
                    if i > 0 {
                        assert(self.shown()[i] == before[i - 1]);
                    }
                }
            }
        }
        update(&mut self.table, request, response.body.as_str(), self.group_id.as_str())
    }

    /// Moves the entry of the given method and URL to the front of what is
    /// shown.
    pub fn select_set_top(&mut self, method: &str, url: &str)
        requires
            old(self).wf(),
        ensures
            final(self).shown() == promoted(old(self).shown(), method@, url@),
            final(self).rows() == old(self).rows(),
            final(self).group() == old(self).group(),
            final(self).wf(),
    {
        let at = self.shown_at(method, url);
        let ghost before = self.shown();
        if at < self.store.len() {
            let row = self.store.remove(at);
            let ghost mid = self.shown();
            proof {
                assert(mid =~= before.remove(at as int));
            }
            self.store.insert(0, row);
            proof {
                assert(self.shown() =~= seq![before[at as int]] + before.remove(at as int));
                assert forall|i: int, j: int| 0 <= i < j < self.shown().len() implies !((
                #[trigger] self.shown()[i]).method == (#[trigger] self.shown()[j]).method
                    && self.shown()[i].url == self.shown()[j].url) by {
                    let a = if i == 0 {
                        at as int
                    } else if i - 1 < at {
                        i - 1
                    } else {
                        i
                    };
                    let b = if j - 1 < at {
                        j - 1
                    } else {
                        j
                    };
                    assert(self.shown()[i] == before[a]);
                    assert(self.shown()[j] == before[b]);
                    assert(a != b);
                }
            }
        }
    }

    /// The request text and response body stored in the active group for
    /// the given method and URL.
    pub fn find(&self, method: &str, url: &str) -> (out: Option<(String, String)>)
        ensures
            match out {
                Some((raw, body)) => held(self.rows(), self.group(), method@, url@) matches Some(
                    r,
                ) && raw@ == r.request_raw && body@ == r.response_body,
                None => held(self.rows(), self.group(), method@, url@) is None,
            },
    {
        find(&self.table, self.group_id.as_str(), method, url)
    }

    /// Removes the entry at `index` from what is shown, and its record from
    /// the active group. `None` when there is no such entry.
    pub fn delete(&mut self, index: usize) -> (out: Option<()>)
        requires
            old(self).wf(),
        ensures
            index < old(self).shown().len() ==> out is Some && final(self).shown() == old(
                self,
            ).shown().remove(index as int) && final(self).rows() == removed(
                old(self).rows(),
                old(self).group(),
                old(self).shown()[index as int].method,
                old(self).shown()[index as int].url,
            ),
            index >= old(self).shown().len() ==> out is None && final(self).shown() == old(
                self,
            ).shown() && final(self).rows() == old(self).rows(),
            final(self).group() == old(self).group(),
            final(self).wf(),
    {
        if index >= self.store.len() {
            return None;
        }
        let ghost before = self.shown();
        let row = self.store.remove(index);
        proof {
            assert(self.shown() =~= before.remove(index as int));
            assert forall|i: int, j: int| 0 <= i < j < self.shown().len() implies !((
            #[trigger] self.shown()[i]).method == (#[trigger] self.shown()[j]).method
                && self.shown()[i].url == self.shown()[j].url) by {
                let a = if i < index {
                    i
                } else {
                    i + 1
                };
                let b = if j < index {
                    j
                } else {
                    j + 1
                };
                assert(self.shown()[i] == before[a]);
                assert(self.shown()[j] == before[b]);
            }
        }
        delete(&mut self.table, self.group_id.as_str(), row.method.as_str(), row.url.as_str());
        Some(())
    }

    /// Gives the entry at `index` and its record the title `name`; an empty
    /// name shows the default title again. `None` when there is no such
    /// entry.
    pub fn rename(&mut self, index: usize, name: &str) -> (out: Option<()>)
        requires
            old(self).wf(),
        ensures
            index < old(self).shown().len() ==> out is Some && final(self).shown() == old(
                self,
            ).shown().update(index as int, titled(old(self).shown()[index as int], name@))
                && final(self).rows() == retitled(
                old(self).rows(),
                old(self).group(),
                old(self).shown()[index as int].method,
                old(self).shown()[index as int].url,
                name@,
            ),
            index >= old(self).shown().len() ==> out is None && final(self).shown() == old(
                self,
            ).shown() && final(self).rows() == old(self).rows(),
            final(self).group() == old(self).group(),
            final(self).wf(),
    {
        if index >= self.store.len() {
            return None;
        }
        let ghost before = self.shown();
        let method = self.store[index].method.clone();
        let url = self.store[index].url.clone();
        let title = if name.is_empty() {
            make_default_title(method.as_str(), url.as_str())
        } else {
            name.to_owned()
        };
        self.store.set(index, Row { method: method.clone(), url: url.clone(), title });
        proof {
            assert(self.shown() =~= before.update(
                index as int,
                titled(before[index as int], name@),
            ));
        }
        rename(&mut self.table, self.group_id.as_str(), method.as_str(), url.as_str(), name);
        Some(())
    }
}

/// In a relation with one record for each key, a key that is held is
/// counted once, and one that is not is counted not at all.
pub proof fn lemma_key_count(rows: Rows, g: Seq<char>, m: Seq<char>, u: Seq<char>)
    requires
        distinct_rows(rows),
    ensures
        key_count(rows, g, m, u) == (if held(rows, g, m, u) is Some {
            1nat
        } else {
            0nat
        }),
    decreases rows.len(),
{
    lemma_row_from(rows, g, m, u, 0);
    if rows.len() > 0 {
        let init = rows.drop_last();
        assert forall|i: int, j: int| 0 <= i < j < init.len() implies !keyed(
            #[trigger] init[j],
            (#[trigger] init[i]).group_id,
            init[i].method,
            init[i].url,
        ) by {
            assert(init[i] == rows[i] && init[j] == rows[j]);
        }
        lemma_key_count(init, g, m, u);
        lemma_row_from(init, g, m, u, 0);
        let at = row_index(init, g, m, u);
        if at < init.len() {
            assert(init[at] == rows[at]);
            assert(row_index(rows, g, m, u) <= at);
            if keyed(rows.last(), g, m, u) {
                assert(keyed(rows[rows.len() - 1], rows[at].group_id, rows[at].method, rows[at].url));
            }
        } else {
            assert forall|k: int| 0 <= k < init.len() implies !keyed(#[trigger] rows[k], g, m, u) by {
                assert(init[k] == rows[k]);
            }
            if keyed(rows.last(), g, m, u) {
                assert(row_index(rows, g, m, u) < rows.len());
            } else {
                if row_index(rows, g, m, u) < rows.len() {
                    assert(keyed(rows[row_index(rows, g, m, u)], g, m, u));
                }
            }
        }
    }
}

/// Writing a record keeps one record for each key, and the written record
/// is the one held under its key.
pub proof fn lemma_upserted(rows: Rows, rec: RecordView)
    requires
        distinct_rows(rows),
    ensures
        distinct_rows(upserted(rows, rec)),
        held(upserted(rows, rec), rec.group_id, rec.method, rec.url) == Some(rec),
{
    lemma_row_from(rows, rec.group_id, rec.method, rec.url, 0);
    let at = row_index(rows, rec.group_id, rec.method, rec.url);
    let after = upserted(rows, rec);
    lemma_row_from(after, rec.group_id, rec.method, rec.url, 0);
    assert(keyed(after[at], rec.group_id, rec.method, rec.url));
    assert forall|k: int| 0 <= k < at implies !keyed(
        #[trigger] after[k],
        rec.group_id,
        rec.method,
        rec.url,
    ) by {
        assert(after[k] == rows[k]);
    }
    assert forall|i: int, j: int| 0 <= i < j < after.len() implies !keyed(
        #[trigger] after[j],
        (#[trigger] after[i]).group_id,
        after[i].method,
        after[i].url,
    ) by {
        if i != at && j != at {
            assert(after[i] == rows[i] && after[j] == rows[j]);
        } else if at < rows.len() {
            if i == at {
                assert(after[j] == rows[j]);
                assert(!keyed(rows[j], rows[at].group_id, rows[at].method, rows[at].url));
            } else {
                assert(after[i] == rows[i]);
                assert(!keyed(rows[at], rows[i].group_id, rows[i].method, rows[i].url));
            }
        } else {
            assert(after[i] == rows[i]);
        }
    }
}

/// What was stored is found: after a request and its response were stored
/// under a key, the key holds the text of the request and the body of the
/// response.
pub proof fn lemma_put_then_find(
    rows: Rows,
    g: Seq<char>,
    m: Seq<char>,
    u: Seq<char>,
    raw: Seq<char>,
    body: Seq<char>,
)
    requires
        distinct_rows(rows),
    ensures
        held(upserted(rows, put_record(rows, g, m, u, raw, body)), g, m, u) matches Some(r)
            && r.request_raw == raw && r.response_body == body,
{
    lemma_upserted(rows, put_record(rows, g, m, u, raw, body));
}

/// Storing twice under one key leaves one record for the key: it holds what
/// was stored last, under the title that the key had before.
pub proof fn lemma_put_twice(
    rows: Rows,
    g: Seq<char>,
    m: Seq<char>,
    u: Seq<char>,
    raw_a: Seq<char>,
    body_a: Seq<char>,
    raw_b: Seq<char>,
    body_b: Seq<char>,
)
    requires
        distinct_rows(rows),
    ensures
        ({
            let first = upserted(rows, put_record(rows, g, m, u, raw_a, body_a));
            let second = upserted(first, put_record(first, g, m, u, raw_b, body_b));
            &&& distinct_rows(second)
            &&& key_count(second, g, m, u) == 1
            &&& held(second, g, m, u) == Some(put_record(rows, g, m, u, raw_b, body_b))
        }),
{
    let a = put_record(rows, g, m, u, raw_a, body_a);
    let first = upserted(rows, a);
    lemma_upserted(rows, a);
    let b = put_record(first, g, m, u, raw_b, body_b);
    let second = upserted(first, b);
    lemma_upserted(first, b);
    lemma_key_count(second, g, m, u);
}

/// Giving a record a title changes nothing else, and keeps one record for
/// each key.
pub proof fn lemma_retitled(rows: Rows, g: Seq<char>, m: Seq<char>, u: Seq<char>, title: Seq<char>)
    requires
        distinct_rows(rows),
    ensures
        distinct_rows(retitled(rows, g, m, u, title)),
        held(rows, g, m, u) is Some ==> held(retitled(rows, g, m, u, title), g, m, u) == Some(
            RecordView { title, ..held(rows, g, m, u).unwrap() },
        ),
        held(rows, g, m, u) is None ==> retitled(rows, g, m, u, title) == rows,
{
    lemma_row_from(rows, g, m, u, 0);
    let at = row_index(rows, g, m, u);
    if at < rows.len() {
        lemma_upserted(rows, RecordView { title, ..rows[at] });
    }
}

/// A title that was set stays when the request is run again: after a
/// rename, storing twice under the key leaves one record with what was
/// stored last and the title of the rename. A key that held nothing could
/// not be renamed and has no title.
pub proof fn lemma_title_survives_puts(
    rows: Rows,
    g: Seq<char>,
    m: Seq<char>,
    u: Seq<char>,
    title: Seq<char>,
    raw_a: Seq<char>,
    body_a: Seq<char>,
    raw_b: Seq<char>,
    body_b: Seq<char>,
)
    requires
        distinct_rows(rows),
    ensures
        ({
            let named = retitled(rows, g, m, u, title);
            let first = upserted(named, put_record(named, g, m, u, raw_a, body_a));
            let second = upserted(first, put_record(first, g, m, u, raw_b, body_b));
            &&& key_count(second, g, m, u) == 1
            &&& held(second, g, m, u) == Some(
                RecordView {
                    group_id: g,
                    method: m,
                    url: u,
                    request_raw: raw_b,
                    response_body: body_b,
                    title: if held(rows, g, m, u) is Some {
                        title
                    } else {
                        Seq::empty()
                    },
                },
            )
        }),
{
    lemma_retitled(rows, g, m, u, title);
    lemma_put_twice(retitled(rows, g, m, u, title), g, m, u, raw_a, body_a, raw_b, body_b);
}

/// A record that was removed is no longer held.
pub proof fn lemma_removed(rows: Rows, g: Seq<char>, m: Seq<char>, u: Seq<char>)
    requires
        distinct_rows(rows),
    ensures
        distinct_rows(removed(rows, g, m, u)),
        held(removed(rows, g, m, u), g, m, u) is None,
{
    lemma_row_from(rows, g, m, u, 0);
    let at = row_index(rows, g, m, u);
    let after = removed(rows, g, m, u);
    lemma_row_from(after, g, m, u, 0);
    let f = row_index(after, g, m, u);
    if f < after.len() {
        if at < rows.len() {
            let b = if f < at {
                f
            } else {
                f + 1
            };
            assert(after[f] == rows[b]);
            if b < at {
                assert(keyed(rows[at], rows[b].group_id, rows[b].method, rows[b].url));
            } else {
                assert(keyed(rows[b], rows[at].group_id, rows[at].method, rows[at].url));
            }
        }
    }
    assert forall|i: int, j: int| 0 <= i < j < after.len() implies !keyed(
        #[trigger] after[j],
        (#[trigger] after[i]).group_id,
        after[i].method,
        after[i].url,
    ) by {
        if at < rows.len() {
            let a = if i < at {
                i
            } else {
                i + 1
            };
            let b = if j < at {
                j
            } else {
                j + 1
            };
            assert(after[i] == rows[a] && after[j] == rows[b]);
        }
    }
}

/// An entry that was deleted comes back at the front: storing the request
/// of a deleted entry again puts a fresh entry for it before all others.
pub proof fn lemma_delete_then_put_fronts(shown: Seq<RowView>, i: int)
    requires
        distinct_shown(shown),
        0 <= i < shown.len(),
    ensures
        !is_shown(shown.remove(i), shown[i].method, shown[i].url),
        put_shown(shown.remove(i), shown[i].method, shown[i].url) == seq![
            fresh_entry(shown[i].method, shown[i].url),
        ] + shown.remove(i),
        put_shown(shown.remove(i), shown[i].method, shown[i].url)[0] == fresh_entry(
            shown[i].method,
            shown[i].url,
        ),
{
    let rest = shown.remove(i);
    let m = shown[i].method;
    let u = shown[i].url;
    lemma_shown_from(rest, m, u, 0);
    let f = shown_from(rest, m, u, 0);
    if f < rest.len() {
        let b = if f < i {
            f
        } else {
            f + 1
        };
        assert(rest[f] == shown[b]);
        if b < i {
            assert(shown[b].method == shown[i].method && shown[b].url == shown[i].url);
        } else {
            assert(shown[i].method == shown[b].method && shown[i].url == shown[b].url);
        }
    }
}

/// Promotion puts the entry of the request first and keeps the others in
/// their order.
pub proof fn lemma_promoted_first(shown: Seq<RowView>, m: Seq<char>, u: Seq<char>)
    requires
        is_shown(shown, m, u),
    ensures
        promoted(shown, m, u).len() == shown.len(),
        promoted(shown, m, u)[0].method == m,
        promoted(shown, m, u)[0].url == u,
        promoted(shown, m, u).subrange(1, shown.len() as int) == shown.remove(
            shown_from(shown, m, u, 0),
        ),
{
    lemma_shown_from(shown, m, u, 0);
    let i = shown_from(shown, m, u, 0);
    assert(promoted(shown, m, u).subrange(1, shown.len() as int) =~= shown.remove(i));
}

} // verus!
