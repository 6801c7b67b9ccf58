//! Worker-side error taxonomy: transient errors may be retried, permanent
//! ones may not. Publish errors are classified by a substring heuristic
//! over the error text.
use vstd::prelude::*;

use vstd::string::StringSliceAdditionalSpecFns;

verus! {

/// An error with a retry classification.
pub enum WorkerError {
    Transient(String),
    Permanent(String),
}

/// The message a worker error carries.
pub open spec fn spec_message(e: WorkerError) -> Seq<char> {
    match e {
        WorkerError::Transient(s) => s@,
        WorkerError::Permanent(s) => s@,
    }
}

impl WorkerError {
    /// A transient error carrying `msg`.
    pub fn transient(msg: String) -> (r: Self)
        ensures
            r is Transient,
            spec_message(r) == msg@,
    {
        WorkerError::Transient(msg)
    }

    /// A permanent error carrying `msg`.
    pub fn permanent(msg: String) -> (r: Self)
        ensures
            r is Permanent,
            spec_message(r) == msg@,
    {
        WorkerError::Permanent(msg)
    }

    /// Whether this error may be retried.
    pub fn is_transient(&self) -> (r: bool)
        ensures
            r == (*self is Transient),
    {
        match self {
            WorkerError::Transient(_) => true,
            WorkerError::Permanent(_) => false,
        }
    }

    /// The message this error carries.
    pub fn message(&self) -> (r: &str)
        ensures
            r@ == spec_message(*self),
    {
        match self {
            WorkerError::Transient(s) => s.as_str(),
            WorkerError::Permanent(s) => s.as_str(),
        }
    }
}

/// The needle occurs somewhere in the haystack.
pub open spec fn spec_contains(h: Seq<u8>, n: Seq<u8>) -> bool {
    exists|k: int| 0 <= k <= h.len() - n.len() && #[trigger] h.subrange(k, k + n.len()) == n
}

/// Whether the needle starts at position `k` of the haystack.
fn match_at(h: &[u8], n: &[u8], k: usize) -> (r: bool)
    requires
        k + n@.len() <= h@.len(),
    ensures
        r == (h@.subrange(k as int, k + n@.len()) == n@),
{
    let hl = h.len();
    let nl = n.len();
    let mut j: usize = 0;
    while j < nl
        invariant
            j <= n@.len(),
            nl == n@.len(),
            hl == h@.len(),
            k + n@.len() <= h@.len(),
            forall|t: int| 0 <= t < j ==> h@[k + t] == n@[t],
        decreases n@.len() - j,
    {
        if h[k + j] != n[j] {
            proof {
                assert(h@.subrange(k as int, k + n@.len())[j as int] == h@[k + j]);
            }
            return false;
        }
        j = j + 1;
    }
    proof {
        assert(h@.subrange(k as int, k + n@.len()) =~= n@);
    }
    true
}

/// Substring search over bytes.
pub fn contains_sub(h: &[u8], n: &[u8]) -> (r: bool)
    ensures
        r == spec_contains(h@, n@),
{
    if n.len() > h.len() {
        return false;
    }
    if n.len() == 0 {
        proof {
            assert(spec_contains(h@, n@)) by {
                assert(h@.subrange(0, 0 + n@.len() as int) =~= n@);
            }
        }
        return true;
    }
    let mut k: usize = 0;
    let last = h.len() - n.len();
    while k <= last
        invariant
            0 <= k <= last + 1,
            last == h@.len() - n@.len(),
            n@.len() >= 1,
            h@.len() <= usize::MAX,
            forall|t: int| 0 <= t < k ==> #[trigger] h@.subrange(t, t + n@.len()) != n@,
        decreases last + 1 - k,
    {
        if match_at(h, n, k) {
            return true;
        }
        k = k + 1;
    }
    false
}

/// The transient-error heuristic over an error text: the text names a
/// connection problem, a timeout, or a broken pipe.
pub open spec fn spec_transient_text(bs: Seq<u8>) -> bool {
    spec_contains(bs, vstd::utf8::encode_utf8("connection"@)) || spec_contains(
        bs,
        vstd::utf8::encode_utf8("timeout"@),
    ) || spec_contains(bs, vstd::utf8::encode_utf8("broken pipe"@))
}

/// Classifies a publish error by its text: transient exactly when the
/// text contains one of the transient markers; the message is kept.
pub fn classify_publish_error(msg: &str) -> (r: WorkerError)
    ensures
        (r is Transient) == spec_transient_text(msg.spec_bytes()),
        spec_message(r) == msg@,
{
    let hb = msg.as_bytes();
    let transient = contains_sub(hb, "connection".as_bytes()) || contains_sub(
        hb,
        "timeout".as_bytes(),
    ) || contains_sub(hb, "broken pipe".as_bytes());
    if transient {
        WorkerError::transient(msg.to_owned())
    } else {
        WorkerError::permanent(msg.to_owned())
    }
}

} // verus!
