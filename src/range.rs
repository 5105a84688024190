//! Range reads: the entries that a cursor hands over for one half-open key
//! range are held to the request and decoded into typed entries.
use vstd::prelude::*;

use crate::codec::{copy_bytes, decode_spec, decode_value, key_lt, FormatError, Value, ValueModel};

verus! {

/// Width in bytes of a commit stamp.
pub const STAMP_WIDTH: usize = 10;

/// One range of a read: the keys `k` with `start <= k < end`, ascending, or
/// descending when `reverse` is set.
#[derive(Clone, Debug, PartialEq, Eq)]
pub struct RangeRequest {
    pub start: Vec<u8>,
    pub end: Vec<u8>,
    pub reverse: bool,
}

/// A stored pair as the engine's cursor hands it over.
#[derive(Clone, Debug, PartialEq, Eq)]
pub struct RawEntry {
    pub key: Vec<u8>,
    pub value: Vec<u8>,
}

/// A typed entry: key, value and the stamp of the commit that wrote it.
#[derive(Clone, Debug, PartialEq, Eq)]
pub struct Entry {
    pub key: Vec<u8>,
    pub value: Value,
    pub versionstamp: Vec<u8>,
}

/// Why a range read failed; `index` is the position of the offending entry in
/// what the cursor handed over.
#[derive(Clone, Copy, Debug, PartialEq, Eq, Structural)]
pub enum ReadError {
    /// The stored value is not a well-formed envelope.
    Format { index: usize, error: FormatError },
    /// The key lies outside the requested range.
    OutOfRange { index: usize },
    /// The key does not follow the one before it in the requested direction.
    OutOfOrder { index: usize },
}

/// A failed batch read: the position of the request whose range failed, and why.
#[derive(Clone, Copy, Debug, PartialEq, Eq, Structural)]
pub struct BatchError {
    pub request: usize,
    pub error: ReadError,
}

impl ReadError {
    /// Position of the offending entry in the scan.
    pub open spec fn index_spec(self) -> usize {
        match self {
            ReadError::Format { index, .. } => index,
            ReadError::OutOfRange { index } => index,
            ReadError::OutOfOrder { index } => index,
        }
    }
}

/// `k` lies in the half-open range `[start, end)`.
pub open spec fn in_range(k: Seq<u8>, start: Seq<u8>, end: Seq<u8>) -> bool {
    !key_lt(k, start) && key_lt(k, end)
}

/// No key lies in `[start, end)`.
pub open spec fn empty_range(start: Seq<u8>, end: Seq<u8>) -> bool {
    !key_lt(start, end)
}

/// `k` may follow `prev` in a scan in the given direction.
pub open spec fn follows(prev: Seq<u8>, k: Seq<u8>, reverse: bool) -> bool {
    if reverse {
        key_lt(k, prev)
    } else {
        key_lt(prev, k)
    }
}

/// What is wrong with the `i`-th entry of a scan for `req`, if anything.
pub open spec fn entry_fault(req: RangeRequest, raw: Seq<RawEntry>, i: int) -> Option<ReadError> {
    if !in_range(raw[i].key@, req.start@, req.end@) {
        Some(ReadError::OutOfRange { index: i as usize })
    } else if i > 0 && !follows(raw[i - 1].key@, raw[i].key@, req.reverse) {
        Some(ReadError::OutOfOrder { index: i as usize })
    } else {
        match decode_spec(raw[i].value@) {
            Err(e) => Some(ReadError::Format { index: i as usize, error: e }),
            Ok(_) => None,
        }
    }
}

/// The stamp of every entry until commits assign stamps: ten zero bytes.
pub open spec fn zero_stamp() -> Seq<u8> {
    Seq::new(STAMP_WIDTH as nat, |i: int| 0u8)
}

/// `e` is the typed form of the raw pair `raw`.
pub open spec fn entry_of(raw: RawEntry, e: Entry) -> bool {
    &&& e.key@ == raw.key@
    &&& decode_spec(raw.value@) == Ok::<ValueModel, FormatError>(e.value@)
    &&& e.versionstamp@ == zero_stamp()
}

/// Whether `a` comes before `b` in byte-wise order.
pub fn key_less(a: &[u8], b: &[u8]) -> (r: bool)
    ensures
        r == key_lt(a@, b@),
{
    let mut i: usize = 0;
    assert(a@.skip(0) =~= a@);
    assert(b@.skip(0) =~= b@);
    while i < a.len() && i < b.len()
        invariant
            i <= a@.len(),
            i <= b@.len(),
            key_lt(a@, b@) == key_lt(a@.skip(i as int), b@.skip(i as int)),
        decreases a@.len() - i,
    {
        if a[i] != b[i] {
            return a[i] < b[i];
        }
        assert(a@.skip(i as int).drop_first() =~= a@.skip(i + 1));
        assert(b@.skip(i as int).drop_first() =~= b@.skip(i + 1));
        i = i + 1;
    }
    i == a.len() && i < b.len()
}

/// Whether no key can lie in the request's range, so that no scan is needed.
pub fn request_is_empty(req: &RangeRequest) -> (r: bool)
    ensures
        r == empty_range(req.start@, req.end@),
{
    !key_less(req.start.as_slice(), req.end.as_slice())
}

fn zero_stamp_vec() -> (r: Vec<u8>)
    ensures
        r@ == zero_stamp(),
{
    let mut r: Vec<u8> = Vec::with_capacity(STAMP_WIDTH);
    let mut i: usize = 0;
    while i < STAMP_WIDTH
        invariant
            i <= STAMP_WIDTH,
            r@ =~= Seq::new(i as nat, |j: int| 0u8),
        decreases STAMP_WIDTH - i,
    {
        r.push(0u8);
        i = i + 1;
    }
    r
}

/// The scan `raw` for `req` has no faulty entry. An empty range needs no scan
/// and has none.
pub open spec fn scan_ok(req: RangeRequest, raw: Seq<RawEntry>) -> bool {
    empty_range(req.start@, req.end@) || forall|i: int|
        0 <= i < raw.len() ==> #[trigger] entry_fault(req, raw, i) is None
}

/// `out` is the typed form of the scan `raw` for `req`: nothing for an empty
/// range, else one entry for each raw pair, in the scan's order.
pub open spec fn output_of(req: RangeRequest, raw: Seq<RawEntry>, out: Seq<Entry>) -> bool {
    if empty_range(req.start@, req.end@) {
        out.len() == 0
    } else {
        &&& out.len() == raw.len()
        &&& forall|i: int| 0 <= i < raw.len() ==> #[trigger] entry_of(raw[i], out[i])
    }
}

/// `e` is the fault of the first faulty entry of the scan `raw` for `req`.
pub open spec fn first_fault(req: RangeRequest, raw: Seq<RawEntry>, e: ReadError) -> bool {
    &&& !empty_range(req.start@, req.end@)
    &&& e.index_spec() < raw.len()
    &&& entry_fault(req, raw, e.index_spec() as int) == Some(e)
    &&& forall|j: int| 0 <= j < e.index_spec() ==> #[trigger] entry_fault(req, raw, j) is None
}

/// Holds the scan `raw` of one range to the request `req` and decodes it: the
/// first entry that lies outside the range, breaks the requested order or holds
/// a malformed value fails the read.
pub fn range_output(req: &RangeRequest, raw: &Vec<RawEntry>) -> (r: Result<Vec<Entry>, ReadError>)
    ensures
        match r {
            Ok(v) => scan_ok(*req, raw@) && output_of(*req, raw@, v@),
            Err(e) => first_fault(*req, raw@, e),
        },
        r matches Ok(v) ==> forall|i: int|
            0 <= i < v@.len() ==> in_range(#[trigger] v@[i].key@, req.start@, req.end@),
        r matches Ok(v) ==> forall|i: int|
            0 < i < v@.len() ==> follows(v@[i - 1].key@, #[trigger] v@[i].key@, req.reverse),
{
    let mut out: Vec<Entry> = Vec::new();
    if request_is_empty(req) {
        return Ok(out);
    }
    let mut i: usize = 0;
    while i < raw.len()
        invariant
            !empty_range(req.start@, req.end@),
            i <= raw@.len(),
            out@.len() == i,
            forall|j: int| 0 <= j < i ==> #[trigger] entry_fault(*req, raw@, j) is None,
            forall|j: int| 0 <= j < i ==> #[trigger] entry_of(raw@[j], out@[j]),
        decreases raw@.len() - i,
    {
        let e = &raw[i];
        let k = e.key.as_slice();
        if key_less(k, req.start.as_slice()) || !key_less(k, req.end.as_slice()) {
            return Err(ReadError::OutOfRange { index: i });
        }
        if i > 0 {
            let prev = raw[i - 1].key.as_slice();
            let ordered = if req.reverse {
                key_less(k, prev)
            } else {
                key_less(prev, k)
            };
            if !ordered {
                return Err(ReadError::OutOfOrder { index: i });
            }
        }
        match decode_value(e.value.as_slice()) {
            Err(error) => {
                return Err(ReadError::Format { index: i, error });
            },
            Ok(value) => {
                let entry = Entry { key: copy_bytes(k), value, versionstamp: zero_stamp_vec() };
                out.push(entry);
            },
        }
        assert(entry_fault(*req, raw@, i as int) is None);
        i = i + 1;
    }
    proof {
        assert forall|j: int| 0 <= j < out@.len() implies in_range(
            #[trigger] out@[j].key@,
            req.start@,
            req.end@,
        ) by {
            assert(entry_fault(*req, raw@, j) is None);
            assert(entry_of(raw@[j], out@[j]));
        }
        assert forall|j: int| 0 < j < out@.len() implies follows(
            out@[j - 1].key@,
            #[trigger] out@[j].key@,
            req.reverse,
        ) by {
            assert(entry_fault(*req, raw@, j) is None);
            assert(entry_of(raw@[j], out@[j]));
            assert(entry_of(raw@[j - 1], out@[j - 1]));
        }
    }
    Ok(out)
}

/// Serves a batch of range requests from the scans of one snapshot:
/// `scans[i]` is what the cursor handed over for `requests[i]`. The result holds
/// one entry list per request, in the order of the requests; the first request
/// whose scan is faulty fails the batch.
pub fn read_batch(requests: &Vec<RangeRequest>, scans: &Vec<Vec<RawEntry>>) -> (r: Result<
    Vec<Vec<Entry>>,
    BatchError,
>)
    requires
        scans@.len() == requests@.len(),
    ensures
        match r {
            Ok(out) => {
                &&& out@.len() == requests@.len()
                &&& forall|i: int|
                    0 <= i < requests@.len() ==> #[trigger] scan_ok(requests@[i], scans@[i]@)
                        && output_of(requests@[i], scans@[i]@, out@[i]@)
            },
            Err(b) => {
                &&& b.request < requests@.len()
                &&& forall|j: int|
                    0 <= j < b.request ==> #[trigger] scan_ok(requests@[j], scans@[j]@)
                &&& first_fault(requests@[b.request as int], scans@[b.request as int]@, b.error)
            },
        },
{
    let mut out: Vec<Vec<Entry>> = Vec::new();
    let mut i: usize = 0;
    while i < requests.len()
        invariant
            scans@.len() == requests@.len(),
            i <= requests@.len(),
            out@.len() == i,
            forall|j: int|
                0 <= j < i ==> #[trigger] scan_ok(requests@[j], scans@[j]@) && output_of(
                    requests@[j],
                    scans@[j]@,
                    out@[j]@,
                ),
        decreases requests@.len() - i,
    {
        match range_output(&requests[i], &scans[i]) {
            Ok(entries) => {
                out.push(entries);
            },
            Err(error) => {
                return Err(BatchError { request: i, error });
            },
        }
        i = i + 1;
    }
    Ok(out)
}

proof fn lemma_key_lt_irreflexive(a: Seq<u8>)
    ensures
        !key_lt(a, a),
    decreases a.len(),
{
    if a.len() > 0 {
        lemma_key_lt_irreflexive(a.drop_first());
    }
}

/// A request whose start equals its end yields no entry, whatever the table
/// holds: no key lies in its range, and its output is empty for every scan.
pub proof fn lemma_empty_request_yields_nothing(req: RangeRequest, raw: Seq<RawEntry>, out: Seq<Entry>)
    requires
        req.start@ == req.end@,
        output_of(req, raw, out),
    ensures
        out.len() == 0,
        forall|k: Seq<u8>| !in_range(k, req.start@, req.end@),
{
    lemma_key_lt_irreflexive(req.start@);
}

} // verus!
