//! The feature table: a fixed, versioned column contract and the row each
//! event contributes to it.
//!
//! Every column is required. Absence is a documented sentinel rather than a
//! null: `ABSENT_NUMBER` for a number, the empty string for text.
use vstd::prelude::*;
use crate::cli::parquet::{ColumnSpec, ColumnType, Value, fits};
use crate::text::owned;

verus! {

/// Raised whenever the column contract changes.
pub const CONTRACT_VERSION: u32 = 1;

/// A number that is absent rather than zero.
pub const ABSENT_NUMBER: i64 = -1;

/// Nanoseconds in a second.
pub const NANOS_PER_SECOND: i64 = 1_000_000_000;

/// The column contract, in order: each column's name and type.
pub open spec fn contract() -> Seq<(Seq<char>, ColumnType)> {
    seq![
        ("event_uid"@, ColumnType::Utf8),
        ("time_ns"@, ColumnType::Int64),
        ("epoch_seconds"@, ColumnType::Int64),
        ("pack_id"@, ColumnType::Utf8),
        ("vendor"@, ColumnType::Utf8),
        ("product"@, ColumnType::Utf8),
        ("disposition"@, ColumnType::Utf8),
        ("class_uid"@, ColumnType::Int64),
        ("category_uid"@, ColumnType::Int64),
        ("activity_id"@, ColumnType::Int64),
        ("type_uid"@, ColumnType::Int64),
        ("severity_id"@, ColumnType::Int64),
        ("src_ip"@, ColumnType::Utf8),
        ("src_port"@, ColumnType::Int64),
        ("dst_ip"@, ColumnType::Utf8),
        ("dst_port"@, ColumnType::Int64),
        ("protocol"@, ColumnType::Utf8),
        ("device_hostname"@, ColumnType::Utf8),
        ("hour_of_day"@, ColumnType::Int64),
        ("day_of_week"@, ColumnType::Int64),
        ("src_is_private"@, ColumnType::Int64),
        ("dst_is_private"@, ColumnType::Int64),
        ("is_alert"@, ColumnType::Int64),
        ("finding_uid"@, ColumnType::Utf8),
    ]
}

pub open spec fn specs_view(v: Seq<ColumnSpec>) -> Seq<(Seq<char>, ColumnType)> {
    v.map_values(|c: ColumnSpec| (c.name@, c.ty))
}

/// The column contract.
pub fn columns() -> (r: Vec<ColumnSpec>)
    ensures
        specs_view(r@) == contract(),
{
    let r = vec![
        ColumnSpec::new("event_uid", ColumnType::Utf8),
        ColumnSpec::new("time_ns", ColumnType::Int64),
        ColumnSpec::new("epoch_seconds", ColumnType::Int64),
        ColumnSpec::new("pack_id", ColumnType::Utf8),
        ColumnSpec::new("vendor", ColumnType::Utf8),
        ColumnSpec::new("product", ColumnType::Utf8),
        ColumnSpec::new("disposition", ColumnType::Utf8),
        ColumnSpec::new("class_uid", ColumnType::Int64),
        ColumnSpec::new("category_uid", ColumnType::Int64),
        ColumnSpec::new("activity_id", ColumnType::Int64),
        ColumnSpec::new("type_uid", ColumnType::Int64),
        ColumnSpec::new("severity_id", ColumnType::Int64),
        ColumnSpec::new("src_ip", ColumnType::Utf8),
        ColumnSpec::new("src_port", ColumnType::Int64),
        ColumnSpec::new("dst_ip", ColumnType::Utf8),
        ColumnSpec::new("dst_port", ColumnType::Int64),
        ColumnSpec::new("protocol", ColumnType::Utf8),
        ColumnSpec::new("device_hostname", ColumnType::Utf8),
        ColumnSpec::new("hour_of_day", ColumnType::Int64),
        ColumnSpec::new("day_of_week", ColumnType::Int64),
        ColumnSpec::new("src_is_private", ColumnType::Int64),
        ColumnSpec::new("dst_is_private", ColumnType::Int64),
        ColumnSpec::new("is_alert", ColumnType::Int64),
        ColumnSpec::new("finding_uid", ColumnType::Utf8),
    ];
    assert(specs_view(r@) =~= contract());
    r
}

/// No two columns share a name.
pub proof fn column_names_are_unique()
    ensures
        forall|i: int, j: int| 0 <= i < j < contract().len() ==> (#[trigger] contract()[i]).0 != (#[trigger] contract()[j]).0,
{
    reveal_strlit("event_uid");
    reveal_strlit("time_ns");
    reveal_strlit("epoch_seconds");
    reveal_strlit("pack_id");
    reveal_strlit("vendor");
    reveal_strlit("product");
    reveal_strlit("disposition");
    reveal_strlit("class_uid");
    reveal_strlit("category_uid");
    reveal_strlit("activity_id");
    reveal_strlit("type_uid");
    reveal_strlit("severity_id");
    reveal_strlit("src_ip");
    reveal_strlit("src_port");
    reveal_strlit("dst_ip");
    reveal_strlit("dst_port");
    reveal_strlit("protocol");
    reveal_strlit("device_hostname");
    reveal_strlit("hour_of_day");
    reveal_strlit("day_of_week");
    reveal_strlit("src_is_private");
    reveal_strlit("dst_is_private");
    reveal_strlit("is_alert");
    reveal_strlit("finding_uid");
    let c = contract();
    assert forall|i: int, j: int| 0 <= i < j < c.len() implies (#[trigger] c[i]).0 != (#[trigger] c[j]).0 by {
        if c[i].0.len() == c[j].0.len() {
            assert(c[i].0[0] != c[j].0[0] || c[i].0[1] != c[j].0[1] || c[i].0[4] != c[j].0[4]);
        }
    }
}


/// A parsed IP address: four octets, or eight 16-bit segments, most
/// significant first.
#[derive(Debug, Clone, Copy)]
pub enum IpAddress {
    V4([u8; 4]),
    V6([u16; 8]),
}

/// An IPv4 address in a private range (10/8, 172.16/12, 192.168/16), or
/// loopback (127/8), link-local (169.254/16) or unspecified (0.0.0.0).
pub open spec fn private_v4(o: Seq<u8>) -> bool {
    ||| o[0] == 10
    ||| (o[0] == 172 && 16 <= o[1] <= 31)
    ||| (o[0] == 192 && o[1] == 168)
    ||| o[0] == 127
    ||| (o[0] == 169 && o[1] == 254)
    ||| (o[0] == 0 && o[1] == 0 && o[2] == 0 && o[3] == 0)
}

/// An IPv6 address that is loopback (`::1`), unspecified (`::`), unique
/// local (fc00::/7) or unicast link-local (fe80::/10).
pub open spec fn private_v6(s: Seq<u16>) -> bool {
    let leading_zero = s[0] == 0 && s[1] == 0 && s[2] == 0 && s[3] == 0 && s[4] == 0 && s[5] == 0 && s[6] == 0;
    ||| (leading_zero && s[7] == 1)
    ||| (leading_zero && s[7] == 0)
    ||| (s[0] & 0xfe00u16) == 0xfc00u16
    ||| (s[0] & 0xffc0u16) == 0xfe80u16
}

pub open spec fn private_addr(a: IpAddress) -> bool {
    match a {
        IpAddress::V4(o) => private_v4(o@),
        IpAddress::V6(s) => private_v6(s@),
    }
}

/// Whether an address never appears on the public internet.
pub fn is_private_addr(a: &IpAddress) -> (r: bool)
    ensures
        r == private_addr(*a),
{
    match a {
        IpAddress::V4(o) => {
            o[0] == 10 || (o[0] == 172 && 16 <= o[1] && o[1] <= 31) || (o[0] == 192 && o[1] == 168)
                || o[0] == 127 || (o[0] == 169 && o[1] == 254)
                || (o[0] == 0 && o[1] == 0 && o[2] == 0 && o[3] == 0)
        }
        IpAddress::V6(s) => {
            let leading_zero = s[0] == 0 && s[1] == 0 && s[2] == 0 && s[3] == 0 && s[4] == 0 && s[5] == 0 && s[6] == 0;
            (leading_zero && s[7] == 1) || (leading_zero && s[7] == 0)
                || (s[0] & 0xfe00u16) == 0xfc00u16 || (s[0] & 0xffc0u16) == 0xfe80u16
        }
    }
}

/// Privacy of the address text `addr`, given what it parses to: `None` for
/// an empty value, `Some(false)` for text that is not an address (a row is
/// still owed for it), otherwise whether the address is private.
pub open spec fn privacy(addr: Seq<char>, parsed: Option<IpAddress>) -> Option<bool> {
    if addr.len() == 0 {
        None
    } else {
        match parsed {
            Some(a) => Some(private_addr(a)),
            None => Some(false),
        }
    }
}

/// Whether `addr` names a private address; `parsed` is what `addr` parses
/// to as an IP address, `None` when it does not parse.
pub fn is_private(addr: &str, parsed: Option<IpAddress>) -> (r: Option<bool>)
    ensures
        r == privacy(addr@, parsed),
{
    if addr.unicode_len() == 0 {
        return None;
    }
    match parsed {
        Some(a) => Some(is_private_addr(&a)),
        None => Some(false),
    }
}

/// The `*_is_private` column: 1, 0, or absent.
pub open spec fn flag(p: Option<bool>) -> i64 {
    match p {
        Some(true) => 1,
        Some(false) => 0,
        None => ABSENT_NUMBER,
    }
}

pub fn private_flag(addr: &str, parsed: Option<IpAddress>) -> (r: i64)
    ensures
        r == flag(privacy(addr@, parsed)),
{
    match is_private(addr, parsed) {
        Some(true) => 1,
        Some(false) => 0,
        None => ABSENT_NUMBER,
    }
}

/// Seconds since the epoch, UTC hour of day and day of week (Monday is 0)
/// of a timestamp in nanoseconds; all absent unless the timestamp is
/// positive. 1970-01-01 was a Thursday.
pub open spec fn time_columns(time_ns: i64) -> (int, int, int) {
    if time_ns > 0 {
        let s = time_ns / NANOS_PER_SECOND;
        (s, (s % 86400) / 3600, ((s / 86400) + 3) % 7)
    } else {
        (ABSENT_NUMBER as int, ABSENT_NUMBER as int, ABSENT_NUMBER as int)
    }
}

pub fn derive_time(time_ns: i64) -> (r: (i64, i64, i64))
    ensures
        (r.0 as int, r.1 as int, r.2 as int) == time_columns(time_ns),
{
    if time_ns > 0 {
        let s = time_ns / NANOS_PER_SECOND;
        (s, (s % 86400) / 3600, ((s / 86400) + 3) % 7)
    } else {
        (ABSENT_NUMBER, ABSENT_NUMBER, ABSENT_NUMBER)
    }
}

/// The derived time columns agree with the timestamp: whole seconds of it,
/// an hour in 0..24 and a weekday in 0..7.
pub proof fn time_columns_agree(time_ns: i64)
    requires
        time_ns > 0,
    ensures
        time_columns(time_ns).0 == time_ns / NANOS_PER_SECOND,
        0 <= time_columns(time_ns).1 < 24,
        0 <= time_columns(time_ns).2 < 7,
{
}


/// What a feature row reads from one event, attribute by attribute; `None`
/// where the event does not carry the attribute (or carries it with another
/// type). The two addresses also come parsed, `None` where the text is not an
/// IP address.
#[derive(Debug, Clone)]
pub struct EventFields {
    pub uid: Option<String>,
    pub time: Option<i64>,
    pub log_provider: Option<String>,
    pub vendor_name: Option<String>,
    pub product_name: Option<String>,
    /// `unmapped.ulpf_disposition`, set only on records the pipeline could
    /// not fully handle.
    pub disposition: Option<String>,
    pub class_uid: Option<i64>,
    pub category_uid: Option<i64>,
    pub activity_id: Option<i64>,
    pub type_uid: Option<i64>,
    pub severity_id: Option<i64>,
    pub src_ip: Option<String>,
    pub src_addr: Option<IpAddress>,
    pub src_port: Option<i64>,
    pub dst_ip: Option<String>,
    pub dst_addr: Option<IpAddress>,
    pub dst_port: Option<i64>,
    pub protocol_name: Option<String>,
    pub hostname: Option<String>,
    pub is_alert: Option<bool>,
    pub finding_uid: Option<String>,
}

/// A cell as the contracts see it.
pub ghost enum Cell {
    Int(int),
    Text(Seq<char>),
}

pub open spec fn cell(v: Value) -> Cell {
    match v {
        Value::Int(i) => Cell::Int(i as int),
        Value::Text(s) => Cell::Text(s@),
    }
}

pub open spec fn text_or_empty(o: Option<String>) -> Seq<char> {
    match o {
        Some(s) => s@,
        None => Seq::empty(),
    }
}

pub open spec fn num_or_absent(o: Option<i64>) -> int {
    match o {
        Some(n) => n as int,
        None => ABSENT_NUMBER as int,
    }
}

/// The row an event contributes, one cell per column of `contract()`.
/// A missing timestamp counts as absent; a missing disposition means the
/// event was parsed.
pub open spec fn row(e: EventFields) -> Seq<Cell> {
    let t = match e.time { Some(n) => n, None => ABSENT_NUMBER };
    let (secs, hour, weekday) = time_columns(t);
    let alert = match e.is_alert { Some(true) => 1int, Some(false) => 0int, None => ABSENT_NUMBER as int };
    seq![
        Cell::Text(text_or_empty(e.uid)),
        Cell::Int(t as int),
        Cell::Int(secs),
        Cell::Text(text_or_empty(e.log_provider)),
        Cell::Text(text_or_empty(e.vendor_name)),
        Cell::Text(text_or_empty(e.product_name)),
        Cell::Text(match e.disposition { Some(d) => d@, None => "parsed"@ }),
        Cell::Int(num_or_absent(e.class_uid)),
        Cell::Int(num_or_absent(e.category_uid)),
        Cell::Int(num_or_absent(e.activity_id)),
        Cell::Int(num_or_absent(e.type_uid)),
        Cell::Int(num_or_absent(e.severity_id)),
        Cell::Text(text_or_empty(e.src_ip)),
        Cell::Int(num_or_absent(e.src_port)),
        Cell::Text(text_or_empty(e.dst_ip)),
        Cell::Int(num_or_absent(e.dst_port)),
        Cell::Text(text_or_empty(e.protocol_name)),
        Cell::Text(text_or_empty(e.hostname)),
        Cell::Int(hour),
        Cell::Int(weekday),
        Cell::Int(flag(privacy(text_or_empty(e.src_ip), e.src_addr)) as int),
        Cell::Int(flag(privacy(text_or_empty(e.dst_ip), e.dst_addr)) as int),
        Cell::Int(alert),
        Cell::Text(text_or_empty(e.finding_uid)),
    ]
}

fn text_cell(o: &Option<String>) -> (r: Value)
    ensures
        cell(r) == Cell::Text(text_or_empty(*o)),
{
    match o {
        Some(s) => Value::Text(s.clone()),
        None => Value::Text(String::new()),
    }
}

fn num_cell(o: Option<i64>) -> (r: Value)
    ensures
        cell(r) == Cell::Int(num_or_absent(o)),
{
    match o {
        Some(n) => Value::Int(n),
        None => Value::Int(ABSENT_NUMBER),
    }
}

pub open spec fn cells(v: Seq<Value>) -> Seq<Cell> {
    v.map_values(|x: Value| cell(x))
}

/// The feature row of one event. Every row has exactly one value per column,
/// each of the column's declared type.
pub fn row_for(e: &EventFields) -> (r: Vec<Value>)
    ensures
        cells(r@) == row(*e),
        r@.len() == contract().len(),
        forall|i: int| 0 <= i < r@.len() ==> fits((#[trigger] contract()[i]).1, r@[i]),
{
    let t = match e.time { Some(n) => n, None => ABSENT_NUMBER };
    let (secs, hour, weekday) = derive_time(t);
    let src_text: &str = match &e.src_ip { Some(s) => s.as_str(), None => "" };
    let dst_text: &str = match &e.dst_ip { Some(s) => s.as_str(), None => "" };
    proof {
        reveal_strlit("");
    }
    let disposition = match &e.disposition {
        Some(d) => Value::Text(d.clone()),
        None => Value::Text(owned("parsed")),
    };
    let alert = match e.is_alert { Some(true) => 1i64, Some(false) => 0i64, None => ABSENT_NUMBER };
    let mut r: Vec<Value> = Vec::new();
    r.push(text_cell(&e.uid));
    r.push(Value::Int(t));
    r.push(Value::Int(secs));
    r.push(text_cell(&e.log_provider));
    r.push(text_cell(&e.vendor_name));
    r.push(text_cell(&e.product_name));
    r.push(disposition);
    r.push(num_cell(e.class_uid));
    r.push(num_cell(e.category_uid));
    r.push(num_cell(e.activity_id));
    r.push(num_cell(e.type_uid));
    r.push(num_cell(e.severity_id));
    r.push(text_cell(&e.src_ip));
    r.push(num_cell(e.src_port));
    r.push(text_cell(&e.dst_ip));
    r.push(num_cell(e.dst_port));
    r.push(text_cell(&e.protocol_name));
    r.push(text_cell(&e.hostname));
    r.push(Value::Int(hour));
    r.push(Value::Int(weekday));
    r.push(Value::Int(private_flag(src_text, e.src_addr)));
    r.push(Value::Int(private_flag(dst_text, e.dst_addr)));
    r.push(Value::Int(alert));
    r.push(text_cell(&e.finding_uid));
    assert(cells(r@) =~= row(*e));
    assert forall|i: int| 0 <= i < r@.len() implies fits((#[trigger] contract()[i]).1, r@[i]) by {
        assert(cells(r@)[i] == row(*e)[i]);
    }
    r
}

} // verus!
