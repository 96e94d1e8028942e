//! What this crate decides around the libqcperf calls: which answers of the
//! library count as success, what is recorded from connecting each backend,
//! how the C records become owned values, which samples and messages reach
//! the UI, and which failure a shutdown reports. The calls themselves are
//! made by the program around the library.
use vstd::prelude::*;

use crate::error::{error_text, Error};
use crate::model::capability::{Capability, MetricInfo};
use crate::model::graph::CapabilityRate;
use crate::model::sample::Sample;
use crate::seqs::{first_index, lemma_first_index_is};
use crate::text::{chars_of, decimal, push_decimal, push_str, string_of, trim_chars, trimmed};

verus! {

/// What a libqcperf call answered, as far as this crate tells the answers
/// apart.
#[derive(Clone, Copy, Debug, PartialEq, Eq, Structural)]
pub enum ReturnCode {
    Success,
    AlreadyInitialized,
    NotInitialized,
    InvalidBackendId,
    NotSupported,
    BackendAlreadyConnected,
    CallbackAlreadySet,
    /// Any other code.
    Failed,
}

/// Whether `qcperf_init` left the library ready.
pub fn init_accepted(rc: ReturnCode) -> (r: bool)
    ensures
        r == (rc == ReturnCode::Success || rc == ReturnCode::AlreadyInitialized),
{
    rc == ReturnCode::Success || rc == ReturnCode::AlreadyInitialized
}

/// `Ok` for success, else the code to describe.
pub fn check(rc: ReturnCode) -> (r: Result<(), ReturnCode>)
    ensures
        rc == ReturnCode::Success ==> r is Ok,
        rc != ReturnCode::Success ==> r == Err::<(), ReturnCode>(rc),
{
    if rc == ReturnCode::Success {
        Ok(())
    } else {
        Err(rc)
    }
}

/// The error for a failed call: its numeric code and the library's text.
pub fn error_from(code: i32, message: String) -> (r: Error)
    ensures
        r matches Error::QcPerf { code: c, message: m } && c == code && m@ == message@,
{
    Error::QcPerf { code, message }
}

/// The request that starts or stops one capability.
#[derive(Clone, Copy, Debug, PartialEq, Eq, Structural)]
pub struct Request {
    pub capability_id: u8,
    pub streaming_rate: u16,
    pub sampling_rate: u16,
}

pub fn request_from(rate: &CapabilityRate) -> (r: Request)
    ensures
        r.capability_id == rate.capability_id,
        r.streaming_rate == rate.streaming_rate_ms,
        r.sampling_rate == rate.sampling_rate_ms,
{
    Request {
        capability_id: rate.capability_id,
        streaming_rate: rate.streaming_rate_ms,
        sampling_rate: rate.sampling_rate_ms,
    }
}

// ---------------------------------------------------------------------------
// Copying the C records
// ---------------------------------------------------------------------------

/// What `String::from_utf8_lossy` makes of `bytes`.
pub uninterp spec fn utf8_lossy(bytes: Seq<u8>) -> Seq<char>;

/// Decodes `bytes` with `String::from_utf8_lossy`, which puts U+FFFD in place
/// of every invalid sequence. Stated: the result is `utf8_lossy` of the
/// bytes, and bytes that are all ASCII decode to the characters with those
/// values. How invalid sequences are replaced is left unsaid.
#[verifier::external_body]
fn decode_lossy(bytes: &[u8]) -> (r: String)
    ensures
        r@ == utf8_lossy(bytes@),
        (forall|i: int| 0 <= i < bytes@.len() ==> #[trigger] bytes@[i] < 128) ==> r@
            == bytes@.map_values(|b: u8| b as char),
{
    String::from_utf8_lossy(bytes).into_owned()
}

pub open spec fn min_len(a: int, b: int) -> int {
    if a < b {
        a
    } else {
        b
    }
}

/// The bytes of a C text field: at most `len` of them, up to the first NUL.
pub open spec fn c_text_bytes(bytes: Seq<u8>, len: nat) -> Seq<u8> {
    let limited = bytes.take(min_len(len as int, bytes.len() as int));
    limited.take(first_index(limited, |b: u8| b == 0))
}

/// A text field of a C record: the first `len` bytes of `bytes` (no more
/// than the array holds), cut at the first NUL, decoded as UTF-8 with
/// replacement characters.
pub fn copy_text(bytes: &[u8], len: usize) -> (r: String)
    ensures
        r@ == utf8_lossy(c_text_bytes(bytes@, len as nat)),
{
    let n = if len < bytes.len() {
        len
    } else {
        bytes.len()
    };
    let ghost limited = bytes@.take(n as int);
    let ghost p = |b: u8| b == 0;
    let mut raw: Vec<u8> = Vec::new();
    let mut i: usize = 0;
    while i < n && bytes[i] != 0
        invariant
            i <= n,
            n <= bytes@.len(),
            limited == bytes@.take(n as int),
            p == (|b: u8| b == 0),
            raw@ == bytes@.take(i as int),
            forall|k: int| 0 <= k < i ==> !p(#[trigger] limited[k]),
        decreases n - i,
    {
        raw.push(bytes[i]);
        i = i + 1;
        assert(raw@ =~= bytes@.take(i as int));
    }
    proof {
        lemma_first_index_is(limited, p, i as int);
        assert(raw@ =~= limited.take(i as int));
    }
    decode_lossy(raw.as_slice())
}

/// A rate list of a C record: its first `len` entries, no more than the
/// array holds.
pub fn copy_rates(rates: &[u16], len: u8) -> (r: Vec<u16>)
    ensures
        r@ == rates@.take(min_len(len as int, rates@.len() as int)),
{
    let n: usize = if (len as usize) < rates.len() {
        len as usize
    } else {
        rates.len()
    };
    let mut out: Vec<u16> = Vec::new();
    let mut i: usize = 0;
    while i < n
        invariant
            i <= n,
            n <= rates@.len(),
            out@ == rates@.take(i as int),
        decreases n - i,
    {
        out.push(rates[i]);
        i = i + 1;
        assert(out@ =~= rates@.take(i as int));
    }
    out
}

/// A metric record with its three text fields copied.
pub fn copy_metric(
    metric_id: u16,
    name: &[u8],
    name_len: usize,
    description: &[u8],
    description_len: usize,
    unit: &[u8],
    unit_len: usize,
) -> (r: MetricInfo)
    ensures
        r.metric_id == metric_id,
        r.name@ == utf8_lossy(c_text_bytes(name@, name_len as nat)),
        r.description@ == utf8_lossy(c_text_bytes(description@, description_len as nat)),
        r.unit@ == utf8_lossy(c_text_bytes(unit@, unit_len as nat)),
{
    MetricInfo {
        metric_id,
        name: copy_text(name, name_len),
        description: copy_text(description, description_len),
        unit: copy_text(unit, unit_len),
    }
}

// ---------------------------------------------------------------------------
// Connecting backends
// ---------------------------------------------------------------------------

/// The backends this process connected, the capabilities they reported, and
/// the warnings collected on the way.
pub struct QcPerf {
    connected: Vec<u8>,
    capabilities: Vec<Capability>,
    warnings: Vec<String>,
}

/// The warning for a backend that refused to connect.
pub open spec fn connect_warning(raw: u8, error: Error) -> Seq<char> {
    "backend "@ + decimal(raw as nat) + ": "@ + error_text(error)
}

/// The warning for a backend that refused the data callback.
pub open spec fn callback_warning(raw: u8, error: Error) -> Seq<char> {
    "backend "@ + decimal(raw as nat) + " data callback: "@ + error_text(error)
}

/// The backend does not exist in this build of the library.
pub open spec fn backend_absent(rc: ReturnCode) -> bool {
    rc == ReturnCode::InvalidBackendId || rc == ReturnCode::NotSupported
}

/// The backend is connected after the call.
pub open spec fn backend_connected(rc: ReturnCode) -> bool {
    rc == ReturnCode::Success || rc == ReturnCode::BackendAlreadyConnected
}

impl QcPerf {
    pub closed spec fn spec_connected(&self) -> Seq<u8> {
        self.connected@
    }

    pub closed spec fn spec_capabilities(&self) -> Seq<Capability> {
        self.capabilities@
    }

    /// The warnings, oldest first.
    pub closed spec fn spec_warnings(&self) -> Seq<Seq<char>> {
        self.warnings@.map_values(|w: String| w@)
    }

    /// Nothing connected yet.
    pub fn new() -> (r: Self)
        ensures
            r.spec_connected() == Seq::<u8>::empty(),
            r.spec_capabilities() == Seq::<Capability>::empty(),
            r.spec_warnings() == Seq::<Seq<char>>::empty(),
    {
        let r = QcPerf { connected: Vec::new(), capabilities: Vec::new(), warnings: Vec::new() };
        assert(r.spec_warnings() =~= Seq::<Seq<char>>::empty());
        r
    }

    pub fn capabilities(&self) -> (r: &[Capability])
        ensures
            r@ == self.spec_capabilities(),
    {
        self.capabilities.as_slice()
    }

    pub fn warnings(&self) -> (r: &[String])
        ensures
            r@.map_values(|w: String| w@) == self.spec_warnings(),
    {
        self.warnings.as_slice()
    }

    /// The connected backends, in the order they connected.
    pub fn connected(&self) -> (r: &[u8])
        ensures
            r@ == self.spec_connected(),
    {
        self.connected.as_slice()
    }

    fn warn(&mut self, text: String)
        ensures
            final(self).spec_warnings() == old(self).spec_warnings().push(text@),
            final(self).spec_connected() == old(self).spec_connected(),
            final(self).spec_capabilities() == old(self).spec_capabilities(),
    {
        let ghost before = self.warnings@;
        self.warnings.push(text);
        assert(self.warnings@.map_values(|w: String| w@) =~= before.map_values(|w: String| w@).push(
            text@,
        ));
    }

    /// Records the answer to connecting backend `raw`; `error` describes
    /// that answer. Returns whether the backend is connected, so that its
    /// capabilities are read next. A backend missing from this build is
    /// skipped quietly; any other refusal becomes a warning.
    pub fn note_connect(&mut self, raw: u8, rc: ReturnCode, error: &Error) -> (r: bool)
        ensures
            r == backend_connected(rc),
            final(self).spec_connected() == old(self).spec_connected(),
            final(self).spec_capabilities() == old(self).spec_capabilities(),
            final(self).spec_warnings() == if backend_absent(rc) || backend_connected(rc) {
                old(self).spec_warnings()
            } else {
                old(self).spec_warnings().push(connect_warning(raw, *error))
            },
    {
        if rc == ReturnCode::InvalidBackendId || rc == ReturnCode::NotSupported {
            return false;
        }
        if rc != ReturnCode::Success && rc != ReturnCode::BackendAlreadyConnected {
            let mut text = String::new();
            push_str(&mut text, "backend ");
            push_decimal(&mut text, raw as u64);
            push_str(&mut text, ": ");
            let described = error.text();
            push_str(&mut text, described.as_str());
            self.warn(text);
            return false;
        }
        true
    }

    /// Records what reading a backend's capabilities gave: the capabilities,
    /// or a warning with the error.
    pub fn note_capabilities(&mut self, read: Result<Vec<Capability>, Error>)
        ensures
            final(self).spec_connected() == old(self).spec_connected(),
            match read {
                Ok(caps) => final(self).spec_capabilities() == old(self).spec_capabilities() + caps@
                    && final(self).spec_warnings() == old(self).spec_warnings(),
                Err(e) => final(self).spec_capabilities() == old(self).spec_capabilities()
                    && final(self).spec_warnings() == old(self).spec_warnings().push(error_text(e)),
            },
    {
        match read {
            Ok(caps) => {
                let mut caps = caps;
                self.capabilities.append(&mut caps);
            },
            Err(e) => {
                let text = e.text();
                self.warn(text);
            },
        }
    }

    /// Records the answer to setting backend `raw`'s data callback; a refusal
    /// becomes a warning.
    pub fn note_data_callback(&mut self, raw: u8, rc: ReturnCode, error: &Error)
        ensures
            final(self).spec_connected() == old(self).spec_connected(),
            final(self).spec_capabilities() == old(self).spec_capabilities(),
            final(self).spec_warnings() == if rc == ReturnCode::Success || rc
                == ReturnCode::CallbackAlreadySet {
                old(self).spec_warnings()
            } else {
                old(self).spec_warnings().push(callback_warning(raw, *error))
            },
    {
        if rc != ReturnCode::Success && rc != ReturnCode::CallbackAlreadySet {
            let mut text = String::new();
            push_str(&mut text, "backend ");
            push_decimal(&mut text, raw as u64);
            push_str(&mut text, " data callback: ");
            let described = error.text();
            push_str(&mut text, described.as_str());
            self.warn(text);
        }
    }

    /// Records that backend `id` is connected.
    pub fn mark_connected(&mut self, id: u8)
        ensures
            final(self).spec_connected() == old(self).spec_connected().push(id),
            final(self).spec_capabilities() == old(self).spec_capabilities(),
            final(self).spec_warnings() == old(self).spec_warnings(),
    {
        self.connected.push(id);
    }

    /// The connected backends in the order to disconnect them: the last
    /// connected first.
    pub fn disconnect_order(&self) -> (r: Vec<u8>)
        ensures
            r@ == self.spec_connected().reverse(),
    {
        let n = self.connected.len();
        let mut out: Vec<u8> = Vec::new();
        let mut i: usize = 0;
        while i < n
            invariant
                i <= n,
                n == self.connected@.len(),
                out@ =~= self.connected@.subrange(n - i, n as int).reverse(),
            decreases n - i,
        {
            out.push(self.connected[n - 1 - i]);
            i = i + 1;
            assert(out@ =~= self.connected@.subrange(n - i, n as int).reverse());
        }
        assert(self.connected@.subrange(0, n as int) =~= self.connected@);
        out
    }
}

/// Which call a shutdown reports as failed.
#[derive(Clone, Copy, Debug, PartialEq, Eq, Structural)]
pub enum ShutdownFailure {
    /// The disconnect at this position of the order.
    Disconnect(usize),
    Deinit,
}

/// The answers to the disconnects, in order, and to `qcperf_deinit`: the
/// first failed disconnect is reported, else a failed deinit (one that found
/// the library not initialized does not count), else nothing.
pub fn shutdown_failure(disconnects: &[ReturnCode], deinit: ReturnCode) -> (r: Option<ShutdownFailure>)
    ensures
        ({
            let i = first_index(disconnects@, |c: ReturnCode| c != ReturnCode::Success);
            if i < disconnects@.len() {
                r == Some(ShutdownFailure::Disconnect(i as usize))
            } else if deinit != ReturnCode::Success && deinit != ReturnCode::NotInitialized {
                r == Some(ShutdownFailure::Deinit)
            } else {
                r is None
            }
        }),
{
    let ghost p = |c: ReturnCode| c != ReturnCode::Success;
    let mut i: usize = 0;
    while i < disconnects.len()
        invariant
            i <= disconnects@.len(),
            p == (|c: ReturnCode| c != ReturnCode::Success),
            forall|k: int| 0 <= k < i ==> !p(#[trigger] disconnects@[k]),
        decreases disconnects.len() - i,
    {
        if disconnects[i] != ReturnCode::Success {
            proof {
                lemma_first_index_is(disconnects@, p, i as int);
            }
            return Some(ShutdownFailure::Disconnect(i));
        }
        i = i + 1;
    }
    proof {
        lemma_first_index_is(disconnects@, p, i as int);
    }
    if deinit != ReturnCode::Success && deinit != ReturnCode::NotInitialized {
        Some(ShutdownFailure::Deinit)
    } else {
        None
    }
}

// ---------------------------------------------------------------------------
// What the callbacks hand to the UI
// ---------------------------------------------------------------------------

/// What the callbacks send to the UI thread.
pub enum BridgeEvent<V> {
    Samples(Vec<Sample<V>>),
    Message { level: String, text: String },
}

/// The level of a libqcperf message.
#[derive(Clone, Copy, Debug, PartialEq, Eq, Structural)]
pub enum MessageLevel {
    Error,
    Warning,
    Info,
    Debug,
}

pub open spec fn level_label(level: MessageLevel) -> Seq<char> {
    match level {
        MessageLevel::Error => "error"@,
        MessageLevel::Warning => "warning"@,
        MessageLevel::Info => "info"@,
        MessageLevel::Debug => "debug"@,
    }
}

impl MessageLevel {
    pub fn label(self) -> (r: &'static str)
        ensures
            r@ == level_label(self),
    {
        match self {
            MessageLevel::Error => "error",
            MessageLevel::Warning => "warning",
            MessageLevel::Info => "info",
            MessageLevel::Debug => "debug",
        }
    }
}

/// The status-line event for a library message: errors and warnings with
/// text left after trimming whitespace; nothing for info, debug, a missing
/// text or one that is blank.
pub fn message_event<V>(level: MessageLevel, bytes: Option<&[u8]>) -> (r: Option<BridgeEvent<V>>)
    ensures
        match bytes {
            Some(b) if level == MessageLevel::Error || level == MessageLevel::Warning => {
                let text = trimmed(utf8_lossy(b@));
                if text.len() == 0 {
                    r is None
                } else {
                    r matches Some(BridgeEvent::Message { level: l, text: t }) && l@ == level_label(
                        level,
                    ) && t@ == text
                }
            },
            _ => r is None,
        },
{
    if level == MessageLevel::Debug || level == MessageLevel::Info {
        return None;
    }
    match bytes {
        None => None,
        Some(b) => {
            let decoded = decode_lossy(b);
            let cs = chars_of(decoded.as_str());
            let kept = trim_chars(&cs);
            if kept.len() == 0 {
                None
            } else {
                let mut level_text = String::new();
                push_str(&mut level_text, level.label());
                Some(BridgeEvent::Message { level: level_text, text: string_of(&kept) })
            }
        },
    }
}

/// One row of a data callback: its timestamp (milliseconds since the epoch,
/// 0 when the library gave none), metric, and value when it is numeric.
pub struct MetricRow<V> {
    pub timestamp: u64,
    pub metric_id: u16,
    pub value: Option<V>,
}

/// The time of a sample: the library's timestamp, or now when it gave none.
pub open spec fn spec_sample_time(timestamp: u64, now: u64) -> u64 {
    if timestamp == 0 {
        now
    } else {
        timestamp
    }
}

/// The time of a sample, in milliseconds since the epoch, given the time now.
pub fn sample_time(timestamp: u64, now: u64) -> (r: u64)
    ensures
        r == spec_sample_time(timestamp, now),
{
    if timestamp == 0 {
        now
    } else {
        timestamp
    }
}

/// The samples of a data callback: one per row with a numeric value, in row
/// order.
pub open spec fn samples_of<V>(backend_id: u8, capability_id: u8, rows: Seq<MetricRow<V>>, now: u64) -> Seq<
    Sample<V>,
>
    decreases rows.len(),
{
    if rows.len() == 0 {
        Seq::empty()
    } else {
        let prev = samples_of(backend_id, capability_id, rows.drop_last(), now);
        let row = rows.last();
        match row.value {
            Some(v) => prev.push(
                Sample {
                    at: spec_sample_time(row.timestamp, now),
                    backend_id,
                    capability_id,
                    metric_id: row.metric_id,
                    value: v,
                },
            ),
            None => prev,
        }
    }
}

pub fn samples_from<V: Copy>(backend_id: u8, capability_id: u8, rows: &[MetricRow<V>], now: u64) -> (r: Vec<
    Sample<V>,
>)
    ensures
        r@ == samples_of(backend_id, capability_id, rows@, now),
{
    let mut out: Vec<Sample<V>> = Vec::new();
    let mut i: usize = 0;
    while i < rows.len()
        invariant
            i <= rows@.len(),
            out@ == samples_of(backend_id, capability_id, rows@.take(i as int), now),
        decreases rows.len() - i,
    {
        proof {
            assert(rows@.take(i + 1).drop_last() =~= rows@.take(i as int));
            assert(rows@.take(i + 1).last() == rows@[i as int]);
        }
        let row = &rows[i];
        match row.value {
            Some(v) => {
                out.push(
                    Sample {
                        at: sample_time(row.timestamp, now),
                        backend_id,
                        capability_id,
                        metric_id: row.metric_id,
                        value: v,
                    },
                );
            },
            None => {},
        }
        i = i + 1;
    }
    assert(rows@.take(rows.len() as int) =~= rows@);
    out
}

} // verus!
