//! A single-signer signed envelope (COSE_Sign1) as the library sees it: the key id
//! of its protected header, its payload and its signature.
use vstd::prelude::*;

verus! {

pub struct EnvelopeView {
    pub key_id: Seq<u8>,
    pub payload: Option<Seq<u8>>,
    pub signature: Seq<u8>,
}

#[derive(Debug, PartialEq, Eq)]
pub struct Envelope {
    pub key_id: Vec<u8>,
    pub payload: Option<Vec<u8>>,
    pub signature: Vec<u8>,
}

pub open spec fn payload_view(p: Option<Vec<u8>>) -> Option<Seq<u8>> {
    match p {
        Some(b) => Some(b@),
        None => None,
    }
}

impl View for Envelope {
    type V = EnvelopeView;

    open spec fn view(&self) -> EnvelopeView {
        EnvelopeView {
            key_id: self.key_id@,
            payload: payload_view(self.payload),
            signature: self.signature@,
        }
    }
}

impl Envelope {
    /// An unsigned envelope that carries `payload`: no key id, no signature.
    pub fn with_payload(payload: Vec<u8>) -> (r: Envelope)
        ensures
            r@ == (EnvelopeView { key_id: Seq::empty(), payload: Some(payload@), signature: Seq::empty() }),
    {
        Envelope { key_id: Vec::new(), payload: Some(payload), signature: Vec::new() }
    }
}

} // verus!
