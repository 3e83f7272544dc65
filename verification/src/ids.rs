use vstd::prelude::*;

verus! {

/// A fixed-width 32-byte public account identifier. Immutable once derived
/// from raw bytes; equality is byte-wise.
#[derive(Debug, PartialEq, Eq)]
pub struct Identity {
    bytes: Vec<u8>,
}

impl View for Identity {
    type V = Seq<u8>;

    closed spec fn view(&self) -> Seq<u8> {
        self.bytes@
    }
}

impl Identity {
    /// A well-formed identifier holds exactly 32 bytes.
    pub open spec fn wf(&self) -> bool {
        self@.len() == 32
    }

    pub fn from_bytes(bytes: Vec<u8>) -> (r: Identity)
        requires
            bytes@.len() == 32,
        ensures
            r@ == bytes@,
            r.wf(),
    {
        Identity { bytes }
    }

    pub fn as_bytes(&self) -> (r: &Vec<u8>)
        ensures
            r@ == self@,
    {
        &self.bytes
    }
}

/// The SS58-check text of a 32-byte account identifier under the default
/// substrate network prefix: a function of the identifier bytes alone.
pub uninterp spec fn ss58_of(id: Seq<u8>) -> Seq<u8>;

/// What decoding an SS58-check string yields: the 32 identifier bytes when
/// the text is well-formed base58 with a sound checksum, nothing otherwise.
pub uninterp spec fn ss58_parse(text: Seq<u8>) -> Option<Seq<u8>>;

/// Relies on `subxt::utils::AccountId32`: its `Display` impl renders the 32
/// identifier bytes in SS58-check form (base58 over prefix byte, id bytes and
/// a two-byte blake2 checksum), a function of the bytes alone.
#[verifier::external_body]
pub(crate) fn ss58_encode(id: &Identity) -> (r: Vec<u8>)
    requires
        id.wf(),
    ensures
        r@ == ss58_of(id@),
{
    let mut a = [0u8; 32];
    a.copy_from_slice(&id.bytes);
    subxt::utils::AccountId32::from(a).to_string().into_bytes()
}

/// Relies on `subxt::utils::AccountId32::from_str`: it returns the 32 body
/// bytes of a base58check string whose length and checksum are sound, and an
/// error otherwise; the outcome depends on the text alone. The length bound
/// keeps the call total: the base58 decoder underneath is not total on
/// arbitrarily long runs of leading `1` digits, and no SS58 form of a
/// 32-byte identifier is longer than 64 bytes, so callers reject longer
/// texts before asking.
#[verifier::external_body]
pub(crate) fn ss58_decode(text: &Vec<u8>) -> (r: Option<Identity>)
    requires
        text@.len() <= 64,
    ensures
        match r {
            Some(id) => id.wf() && ss58_parse(text@) == Some(id@),
            None => ss58_parse(text@) is None,
        },
{
    let s = match core::str::from_utf8(text) {
        Ok(s) => s,
        Err(_) => return None,
    };
    match <subxt::utils::AccountId32 as core::str::FromStr>::from_str(s) {
        Ok(a) => Some(Identity { bytes: a.0.to_vec() }),
        Err(_) => None,
    }
}

} // verus!
