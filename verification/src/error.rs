use vstd::prelude::*;

verus! {

/// The library's error type: a bare message, or a message together with the
/// text of an underlying failure.
#[derive(Debug)]
pub enum KlsError {
    S(String),
    E(String, String),
}

impl KlsError {
    /// The diagnostic text for this error.
    pub fn message(&self) -> (r: String)
        ensures
            r@ == match self {
                KlsError::S(msg) => "KlsError: "@ + msg@,
                KlsError::E(msg, e) => "KlsError("@ + e@ + "): "@ + msg@,
            },
    {
        match self {
            KlsError::S(msg) => {
                let mut out = String::from_str("KlsError: ");
                out.append(msg.as_str());
                out
            },
            KlsError::E(msg, e) => {
                let mut out = String::from_str("KlsError(");
                out.append(e.as_str());
                out.append("): ");
                out.append(msg.as_str());
                proof {
                    assert(out@ =~= "KlsError("@ + e@ + "): "@ + msg@);
                }
                out
            },
        }
    }
}

} // verus!
