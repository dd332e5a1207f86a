//! Where HTTP sinks send their batches, and how a batch accumulates.
//!
//! Only plain `http://` is accepted: TLS is terminated at a trusted local
//! proxy rather than implied by a scheme this client does not speak.
use vstd::prelude::*;
use crate::decode::salvage::{bracket_p, lemma_rfind, rfind, rfind_char, strip, strip_range};
use crate::field::parse_u64;
use crate::text::{
    chars_of, eq_char, find, find_char, is_prefix, lead, lemma_find_p, owned, part, push_char,
    push_range, starts_with_at, string_range,
};

verus! {

/// A parsed `http://host[:port][/path]` sink URL.
#[derive(Debug, Clone, PartialEq, Eq)]
pub struct HttpEndpoint {
    pub host: String,
    pub port: u16,
    pub path: String,
}

/// Why a sink URL was refused; each carries the URL.
#[derive(Debug, Clone, PartialEq, Eq)]
pub enum SinkError {
    /// Not `http://`.
    NotHttp(String),
    /// No host in the URL.
    NoHost(String),
    /// The host holds ASCII whitespace or control characters.
    BadHost(String),
    /// The path holds ASCII control characters.
    BadPath(String),
}

pub open spec fn is_ascii_space(c: char) -> bool {
    c == '\t' || c == '\n' || c == '\u{0C}' || c == '\r' || c == ' '
}

pub open spec fn is_ascii_control(c: char) -> bool {
    (c as u32) < 0x20 || (c as u32) == 0x7f
}

pub open spec fn has_bad_host_char(h: Seq<char>) -> bool {
    exists|i: int| 0 <= i < h.len() && (is_ascii_space(#[trigger] h[i]) || is_ascii_control(h[i]))
}

pub open spec fn has_control(p: Seq<char>) -> bool {
    exists|i: int| 0 <= i < p.len() && is_ascii_control(#[trigger] p[i])
}

/// `str::parse::<u16>`.
pub open spec fn parse_port(p: Seq<char>) -> Option<u16> {
    match parse_u64(p) {
        Some(v) => if v <= 65535 { Some(v as u16) } else { None },
        None => None,
    }
}

/// Host and port of an authority: split at the last `:` when what follows
/// is a port (brackets stripped from the host); otherwise port 80.
pub open spec fn host_port(authority: Seq<char>) -> (Seq<char>, u16) {
    match rfind(authority, ':') {
        Some(k) => match parse_port(authority.skip(k + 1)) {
            Some(p) => (strip(authority.take(k), bracket_p()), p),
            None => (authority, 80u16),
        },
        None => (authority, 80u16),
    }
}

/// What a sink URL parses to: `Ok((host, port, path))`, or the refusal as
/// 0 (not http), 1 (no host), 2 (bad host), 3 (bad path).
pub open spec fn endpoint_of(url: Seq<char>) -> Result<(Seq<char>, u16, Seq<char>), int> {
    if !is_prefix("http://"@, url) {
        Err(0)
    } else {
        let rest = url.skip(7);
        let (authority, path) = match find(rest, '/') {
            Some(i) => (rest.take(i), rest.skip(i + 1)),
            None => (rest, Seq::empty()),
        };
        let (host, port) = host_port(authority);
        if authority.len() == 0 || host.len() == 0 {
            Err(1)
        } else if has_bad_host_char(host) {
            Err(2)
        } else if has_control(path) {
            Err(3)
        } else {
            Ok((host, port, seq!['/'] + path.skip(lead(path, eq_char('/')) as int)))
        }
    }
}

pub open spec fn refusal_code(e: SinkError) -> int {
    match e {
        SinkError::NotHttp(_) => 0,
        SinkError::NoHost(_) => 1,
        SinkError::BadHost(_) => 2,
        SinkError::BadPath(_) => 3,
    }
}

pub open spec fn refusal_url(e: SinkError) -> Seq<char> {
    match e {
        SinkError::NotHttp(u) => u@,
        SinkError::NoHost(u) => u@,
        SinkError::BadHost(u) => u@,
        SinkError::BadPath(u) => u@,
    }
}

fn bad_host_char(c: char) -> (r: bool)
    ensures
        r == (is_ascii_space(c) || is_ascii_control(c)),
{
    c == '\t' || c == '\n' || c == '\u{0C}' || c == '\r' || c == ' ' || (c as u32) < 0x20 || (c as u32) == 0x7f
}

fn any_bad_host_char(cs: &[char], lo: usize, hi: usize) -> (r: bool)
    requires
        lo <= hi <= cs@.len(),
    ensures
        r == has_bad_host_char(part(cs@, lo as int, hi as int)),
{
    let ghost t = part(cs@, lo as int, hi as int);
    let mut i = lo;
    while i < hi
        invariant
            lo <= i <= hi <= cs@.len(),
            t == part(cs@, lo as int, hi as int),
            forall|j: int| 0 <= j < i - lo ==> !(is_ascii_space(#[trigger] t[j]) || is_ascii_control(t[j])),
        decreases hi - i,
    {
        assert(t[i - lo] == cs@[i as int]);
        if bad_host_char(cs[i]) {
            return true;
        }
        i += 1;
    }
    false
}

fn any_control(cs: &[char], lo: usize, hi: usize) -> (r: bool)
    requires
        lo <= hi <= cs@.len(),
    ensures
        r == has_control(part(cs@, lo as int, hi as int)),
{
    let ghost t = part(cs@, lo as int, hi as int);
    let mut i = lo;
    while i < hi
        invariant
            lo <= i <= hi <= cs@.len(),
            t == part(cs@, lo as int, hi as int),
            forall|j: int| 0 <= j < i - lo ==> !is_ascii_control(#[trigger] t[j]),
        decreases hi - i,
    {
        assert(t[i - lo] == cs@[i as int]);
        if (cs[i] as u32) < 0x20 || (cs[i] as u32) == 0x7f {
            return true;
        }
        i += 1;
    }
    false
}

fn skip_slashes(cs: &[char], lo: usize, hi: usize) -> (r: usize)
    requires
        lo <= hi <= cs@.len(),
    ensures
        lo <= r <= hi,
        r - lo == lead(part(cs@, lo as int, hi as int), eq_char('/')),
{
    let mut s = lo;
    while s < hi && cs[s] == '/'
        invariant
            lo <= s <= hi <= cs@.len(),
            lead(part(cs@, lo as int, hi as int), eq_char('/')) == (s - lo) + lead(part(cs@, s as int, hi as int), eq_char('/')),
        decreases hi - s,
    {
        assert(part(cs@, s as int, hi as int).drop_first() == part(cs@, s + 1, hi as int));
        s += 1;
    }
    if s < hi {
        assert(part(cs@, s as int, hi as int)[0] == cs@[s as int]);
    }
    s
}

impl HttpEndpoint {
    /// Parse `http://host[:port][/path]`.
    pub fn parse(url: &str) -> (r: Result<HttpEndpoint, SinkError>)
        ensures
            match endpoint_of(url@) {
                Ok((host, port, path)) => r matches Ok(e) && e.host@ == host && e.port == port && e.path@ == path,
                Err(code) => r matches Err(e) && refusal_code(e) == code && refusal_url(e) == url@,
            },
    {
        let cs = chars_of(url);
        let n = cs.len();
        let scheme = chars_of("http://");
        proof {
            reveal_strlit("http://");
        }
        assert(part(cs@, 0, n as int) == url@);
        if !starts_with_at(&cs, 0, n, &scheme) {
            return Err(SinkError::NotHttp(owned(url)));
        }
        let ghost rest = url@.skip(7);
        assert(rest == part(cs@, 7, n as int));
        let (a_end, p_start) = match find_char(&cs, 7, n, '/') {
            Some(i) => {
                assert(rest.take(i - 7) == part(cs@, 7, i as int));
                assert(rest.skip(i - 7 + 1) == part(cs@, i + 1, n as int));
                (i, i + 1)
            },
            None => {
                assert(part(cs@, n as int, n as int) == Seq::<char>::empty());
                (n, n)
            },
        };
        let ghost authority = part(cs@, 7, a_end as int);
        let ghost path = part(cs@, p_start as int, n as int);
        if a_end == 7 {
            return Err(SinkError::NoHost(owned(url)));
        }
        // host and port
        let mut h_lo: usize = 7;
        let mut h_hi: usize = a_end;
        let mut port: u16 = 80;
        match rfind_char(&cs, 7, a_end, ':') {
            Some(k) => {
                proof {
                    lemma_rfind(authority, ':');
                }
                assert(authority.skip(k - 7 + 1) == part(cs@, k + 1, a_end as int));
                assert(authority.take(k - 7) == part(cs@, 7, k as int));
                match crate::field::parse_uint(&cs, k + 1, a_end) {
                    Some(v) => {
                        if v <= 65535 {
                            let (x, y) = strip_range(&cs, 7, k, true);
                            h_lo = x;
                            h_hi = y;
                            port = v as u16;
                        }
                    },
                    None => {},
                }
            },
            None => {},
        }
        let ghost host = part(cs@, h_lo as int, h_hi as int);
        assert(host_port(authority) == (host, port));
        if h_lo == h_hi {
            return Err(SinkError::NoHost(owned(url)));
        }
        if any_bad_host_char(&cs, h_lo, h_hi) {
            assert(has_bad_host_char(host_port(authority).0));
            return Err(SinkError::BadHost(owned(url)));
        }
        if any_control(&cs, p_start, n) {
            assert(!has_bad_host_char(host_port(authority).0));
            assert(has_control(path));
            return Err(SinkError::BadPath(owned(url)));
        }
        let s = skip_slashes(&cs, p_start, n);
        assert(path.skip(s - p_start) == part(cs@, s as int, n as int));
        let mut p = String::new();
        push_char(&mut p, '/');
        push_range(&mut p, &cs, s, n);
        assert(p@ == seq!['/'] + part(cs@, s as int, n as int));
        Ok(HttpEndpoint { host: string_range(&cs, h_lo, h_hi), port, path: p })
    }
}


// ---------------------------------------------------------------------------
// Batching
// ---------------------------------------------------------------------------

/// Newline-delimited records waiting to be posted to one endpoint.
#[derive(Debug, Clone)]
pub struct BatchHttp {
    pub endpoint: HttpEndpoint,
    pub content_type: &'static str,
    pub authorization: Option<String>,
    pub body: Vec<u8>,
    pub count: usize,
    pub batch_size: usize,
}

impl BatchHttp {
    /// Append one record and its newline.
    pub fn push(&mut self, line: &[u8])
        requires
            old(self).count < usize::MAX,
        ensures
            final(self).body@ == old(self).body@ + line@ + seq![10u8],
            final(self).count == old(self).count + 1,
            final(self).batch_size == old(self).batch_size,
            final(self).endpoint == old(self).endpoint,
            final(self).content_type == old(self).content_type,
            final(self).authorization == old(self).authorization,
    {
        let mut i: usize = 0;
        while i < line.len()
            invariant
                i <= line@.len(),
                self.body@ == old(self).body@ + line@.take(i as int),
                self.count == old(self).count,
                self.batch_size == old(self).batch_size,
                self.endpoint == old(self).endpoint,
                self.content_type == old(self).content_type,
                self.authorization == old(self).authorization,
            decreases line@.len() - i,
        {
            self.body.push(line[i]);
            assert(line@.take(i + 1) == line@.take(i as int).push(line@[i as int]));
            i += 1;
        }
        assert(line@.take(line@.len() as int) == line@);
        self.body.push(10u8);
        self.count += 1;
    }

    /// The body to post, when there is anything to post.
    pub fn pending(&self) -> (r: Option<&[u8]>)
        ensures
            self.count == 0 ==> r is None,
            self.count > 0 ==> (r matches Some(b) && b@ == self.body@),
    {
        if self.count == 0 {
            None
        } else {
            Some(self.body.as_slice())
        }
    }

    /// Forget the batch once the endpoint has accepted it.
    pub fn sent(&mut self)
        ensures
            final(self).body@.len() == 0,
            final(self).count == 0,
            final(self).batch_size == old(self).batch_size,
            final(self).endpoint == old(self).endpoint,
    {
        self.body.clear();
        self.count = 0;
    }

    /// Whether the batch is full.
    pub fn is_full(&self) -> (r: bool)
        ensures
            r == (self.count >= self.batch_size),
    {
        self.count >= self.batch_size
    }
}

/// The path with trailing slashes removed and `/_bulk` appended.
pub open spec fn bulk_path(path: Seq<char>) -> Seq<char> {
    path.take(path.len() - crate::text::trail(path, eq_char('/'))) + "/_bulk"@
}

/// An OpenSearch `_bulk` sink: each event is an action line and a document.
#[derive(Debug, Clone)]
pub struct OpenSearchSink {
    pub batch: BatchHttp,
    pub index: String,
}

/// A Splunk HTTP Event Collector sink.
#[derive(Debug, Clone)]
pub struct SplunkHecSink {
    pub batch: BatchHttp,
}

fn prefixed(prefix: &str, value: &str) -> (r: String)
    ensures
        r@ == prefix@ + value@,
{
    let mut out = owned(prefix);
    crate::text::push_str(&mut out, value);
    out
}

impl OpenSearchSink {
    /// A sink posting to `url`'s `_bulk` path; `token`, when given, is sent
    /// as a bearer token. Action and document count as two records, so the
    /// batch holds twice `batch_size` lines (at least two).
    pub fn new(url: &str, index: &str, batch_size: usize, token: Option<&str>) -> (r: Result<Self, SinkError>)
        ensures
            match endpoint_of(url@) {
                Ok((host, port, path)) => r matches Ok(s) && s.batch.endpoint.host@ == host && s.batch.endpoint.port == port
                    && s.batch.endpoint.path@ == bulk_path(path) && s.index@ == index@
                    && s.batch.content_type@ == "application/x-ndjson"@
                    && s.batch.batch_size == (if batch_size <= usize::MAX / 2 && 2 * batch_size >= 2 { (2 * batch_size) as usize } else if batch_size > usize::MAX / 2 { usize::MAX } else { 2 })
                    && s.batch.count == 0 && s.batch.body@.len() == 0
                    && (match token {
                        Some(t) => s.batch.authorization matches Some(a) && a@ == "Bearer "@ + t@,
                        None => s.batch.authorization is None,
                    }),
                Err(code) => r matches Err(e) && refusal_code(e) == code,
            },
    {
        let mut endpoint = match HttpEndpoint::parse(url) {
            Ok(e) => e,
            Err(e) => {
                return Err(e);
            },
        };
        let pc = chars_of(endpoint.path.as_str());
        let end = crate::text::back_ws_like_slash(&pc);
        let mut p = string_range(&pc, 0, end);
        crate::text::push_str(&mut p, "/_bulk");
        assert(pc@.subrange(0, pc@.len() as int) == pc@);
        endpoint.path = p;
        let doubled = if batch_size > usize::MAX / 2 { usize::MAX } else { batch_size * 2 };
        let size = if doubled > 2 { doubled } else { 2 };
        let authorization = match token {
            Some(t) => Some(prefixed("Bearer ", t)),
            None => None,
        };
        Ok(OpenSearchSink {
            batch: BatchHttp {
                endpoint,
                content_type: "application/x-ndjson",
                authorization,
                body: Vec::new(),
                count: 0,
                batch_size: size,
            },
            index: owned(index),
        })
    }

    /// Queue one event: its bulk action line, then the document. Says
    /// whether the batch is now full.
    pub fn write(&mut self, action: &[u8], document: &[u8]) -> (full: bool)
        requires
            old(self).batch.count < usize::MAX - 1,
        ensures
            final(self).batch.body@ == old(self).batch.body@ + action@ + seq![10u8] + document@ + seq![10u8],
            final(self).batch.count == old(self).batch.count + 2,
            full == (final(self).batch.count >= final(self).batch.batch_size),
    {
        self.batch.push(action);
        self.batch.push(document);
        self.batch.is_full()
    }
}

impl SplunkHecSink {
    /// A sink posting to `url` with the HEC `token`.
    pub fn new(url: &str, token: &str, batch_size: usize) -> (r: Result<Self, SinkError>)
        ensures
            match endpoint_of(url@) {
                Ok((host, port, path)) => r matches Ok(s) && s.batch.endpoint.host@ == host && s.batch.endpoint.port == port
                    && s.batch.endpoint.path@ == path && s.batch.content_type@ == "application/json"@
                    && s.batch.batch_size == batch_size && s.batch.count == 0 && s.batch.body@.len() == 0
                    && (s.batch.authorization matches Some(a) && a@ == "Splunk "@ + token@),
                Err(code) => r matches Err(e) && refusal_code(e) == code,
            },
    {
        let endpoint = match HttpEndpoint::parse(url) {
            Ok(e) => e,
            Err(e) => {
                return Err(e);
            },
        };
        Ok(SplunkHecSink {
            batch: BatchHttp {
                endpoint,
                content_type: "application/json",
                authorization: Some(prefixed("Splunk ", token)),
                body: Vec::new(),
                count: 0,
                batch_size,
            },
        })
    }

    /// Queue one event payload; says whether the batch is now full.
    pub fn write(&mut self, payload: &[u8]) -> (full: bool)
        requires
            old(self).batch.count < usize::MAX,
        ensures
            final(self).batch.body@ == old(self).batch.body@ + payload@ + seq![10u8],
            final(self).batch.count == old(self).batch.count + 1,
            full == (final(self).batch.count >= final(self).batch.batch_size),
    {
        self.batch.push(payload);
        self.batch.is_full()
    }
}


// ---------------------------------------------------------------------------
// The Parquet archive
// ---------------------------------------------------------------------------

/// Who the archive's files say wrote them.
pub const ARCHIVE_WRITER: &'static str = "ulpf parquet sink";

/// The archive's columns: the whole OCSF document, then three scalars a
/// reader can filter on without parsing it.
pub open spec fn archive_contract() -> Seq<(Seq<char>, crate::cli::parquet::ColumnType)> {
    seq![
        ("event_json"@, crate::cli::parquet::ColumnType::Utf8),
        ("class_uid"@, crate::cli::parquet::ColumnType::Int64),
        ("activity_id"@, crate::cli::parquet::ColumnType::Int64),
        ("time"@, crate::cli::parquet::ColumnType::Int64),
    ]
}

pub fn archive_columns() -> (r: Vec<crate::cli::parquet::ColumnSpec>)
    ensures
        crate::cli::features::specs_view(r@) == archive_contract(),
{
    let r = vec![
        crate::cli::parquet::ColumnSpec::new("event_json", crate::cli::parquet::ColumnType::Utf8),
        crate::cli::parquet::ColumnSpec::new("class_uid", crate::cli::parquet::ColumnType::Int64),
        crate::cli::parquet::ColumnSpec::new("activity_id", crate::cli::parquet::ColumnType::Int64),
        crate::cli::parquet::ColumnSpec::new("time", crate::cli::parquet::ColumnType::Int64),
    ];
    assert(crate::cli::features::specs_view(r@) =~= archive_contract());
    r
}

/// Why an event cannot be archived.
#[derive(Debug, Clone, Copy, PartialEq, Eq, Structural)]
pub enum ArchiveError {
    NoClassUid,
    NoActivityId,
    NoTime,
}

/// The archive row of an event: its JSON, class, activity and time. An
/// event missing any of the three scalars is refused, the first missing one
/// named.
pub fn archive_row(event_json: String, class_uid: Option<i64>, activity_id: Option<i64>, time: Option<i64>) -> (r: Result<Vec<crate::cli::parquet::Value>, ArchiveError>)
    ensures
        match (class_uid, activity_id, time) {
            (Some(c), Some(a), Some(t)) => r matches Ok(row) && row@.len() == 4
                && row@[0] == crate::cli::parquet::Value::Text(event_json)
                && row@[1] == crate::cli::parquet::Value::Int(c)
                && row@[2] == crate::cli::parquet::Value::Int(a)
                && row@[3] == crate::cli::parquet::Value::Int(t),
            (None, _, _) => r == Err::<Vec<crate::cli::parquet::Value>, ArchiveError>(ArchiveError::NoClassUid),
            (Some(_), None, _) => r == Err::<Vec<crate::cli::parquet::Value>, ArchiveError>(ArchiveError::NoActivityId),
            (Some(_), Some(_), None) => r == Err::<Vec<crate::cli::parquet::Value>, ArchiveError>(ArchiveError::NoTime),
        },
{
    let c = match class_uid {
        Some(c) => c,
        None => return Err(ArchiveError::NoClassUid),
    };
    let a = match activity_id {
        Some(a) => a,
        None => return Err(ArchiveError::NoActivityId),
    };
    let t = match time {
        Some(t) => t,
        None => return Err(ArchiveError::NoTime),
    };
    let row = vec![
        crate::cli::parquet::Value::Text(event_json),
        crate::cli::parquet::Value::Int(c),
        crate::cli::parquet::Value::Int(a),
        crate::cli::parquet::Value::Int(t),
    ];
    Ok(row)
}

} // verus!
