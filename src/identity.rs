//! Identities that sign envelopes, verifiers that resolve who signed one, and the
//! composition of verifiers.
use crate::address::{anonymous_bytes, Address};
use crate::envelope::{Envelope, EnvelopeView};
use crate::error::{ErrorKind, ErrorView, ManyError};
use vstd::prelude::*;
use vstd::string::StringExecFns;

verus! {

/// The value of a verification outcome: the signer's address bytes or an error.
pub open spec fn address_result(r: Result<Address, ManyError>) -> Result<Seq<u8>, ErrorView> {
    match r {
        Ok(a) => Ok(a@),
        Err(e) => Err(e@),
    }
}

/// The value of a signing outcome: the signed envelope or an error.
pub open spec fn envelope_result(r: Result<Envelope, ManyError>) -> Result<EnvelopeView, ErrorView> {
    match r {
        Ok(e) => Ok(e@),
        Err(e) => Err(e@),
    }
}

pub open spec fn key_view(k: Option<Vec<u8>>) -> Option<Seq<u8>> {
    match k {
        Some(b) => Some(b@),
        None => None,
    }
}

/// Anything with an address on the protocol that can sign envelopes.
pub trait Identity {
    /// The address of this identity.
    spec fn spec_address(&self) -> Seq<u8>;

    /// Whether signing `envelope` may yield `result`.
    spec fn signs(&self, envelope: EnvelopeView, result: Result<EnvelopeView, ErrorView>) -> bool;

    fn address(&self) -> (r: Address)
        ensures
            r@ == self.spec_address(),
    ;

    /// Its public key, encoded; absent where unknown.
    spec fn spec_public_key(&self) -> Option<Seq<u8>>;

    fn public_key(&self) -> (r: Option<Vec<u8>>)
        ensures
            key_view(r) == self.spec_public_key(),
    ;

    /// Signing keeps the payload.
    proof fn lemma_signing_keeps_payload(&self, envelope: EnvelopeView, signed: EnvelopeView)
        requires
            self.signs(envelope, Ok(signed)),
        ensures
            signed.payload == envelope.payload,
    ;

    fn sign_1(&self, envelope: Envelope) -> (r: Result<Envelope, ManyError>)
        ensures
            self.signs(envelope@, envelope_result(r)),
    ;
}

/// The other side of a signature: checks an envelope and resolves who signed it.
pub trait Verifier {
    /// What verifying `envelope` yields.
    spec fn outcome(&self, envelope: EnvelopeView) -> Result<Seq<u8>, ErrorView>;

    fn verify_1(&self, envelope: &Envelope) -> (r: Result<Address, ManyError>)
        ensures
            address_result(r) == self.outcome(envelope@),
    ;
}

/// An identity behind an owning handle is that identity.
impl<I: Identity> Identity for Box<I> {
    open spec fn spec_address(&self) -> Seq<u8> {
        (**self).spec_address()
    }

    open spec fn signs(&self, envelope: EnvelopeView, result: Result<EnvelopeView, ErrorView>) -> bool {
        (**self).signs(envelope, result)
    }

    fn address(&self) -> (r: Address) {
        (**self).address()
    }

    open spec fn spec_public_key(&self) -> Option<Seq<u8>> {
        (**self).spec_public_key()
    }

    fn public_key(&self) -> (r: Option<Vec<u8>>) {
        (**self).public_key()
    }

    proof fn lemma_signing_keeps_payload(&self, envelope: EnvelopeView, signed: EnvelopeView) {
        (**self).lemma_signing_keeps_payload(envelope, signed);
    }

    fn sign_1(&self, envelope: Envelope) -> (r: Result<Envelope, ManyError>) {
        (**self).sign_1(envelope)
    }
}

/// A verifier behind an owning handle is that verifier.
impl<V: Verifier> Verifier for Box<V> {
    open spec fn outcome(&self, envelope: EnvelopeView) -> Result<Seq<u8>, ErrorView> {
        (**self).outcome(envelope)
    }

    fn verify_1(&self, envelope: &Envelope) -> (r: Result<Address, ManyError>) {
        (**self).verify_1(envelope)
    }
}

/// The identity with no key: its address is the anonymous one and it signs
/// nothing, handing envelopes back unchanged.
#[derive(Clone, Copy, Debug)]
pub struct AnonymousIdentity;

impl Identity for AnonymousIdentity {
    open spec fn spec_address(&self) -> Seq<u8> {
        anonymous_bytes()
    }

    open spec fn signs(&self, envelope: EnvelopeView, result: Result<EnvelopeView, ErrorView>) -> bool {
        result == Ok::<EnvelopeView, ErrorView>(envelope)
    }

    fn address(&self) -> (r: Address) {
        Address::anonymous()
    }

    open spec fn spec_public_key(&self) -> Option<Seq<u8>> {
        None
    }

    fn public_key(&self) -> (r: Option<Vec<u8>>) {
        None
    }

    proof fn lemma_signing_keeps_payload(&self, envelope: EnvelopeView, signed: EnvelopeView) {
    }

    fn sign_1(&self, envelope: Envelope) -> (r: Result<Envelope, ManyError>) {
        Ok(envelope)
    }
}

/// Names itself in the key id and adds no signature: the counterpart of
/// `AcceptAllVerifier`. Meant for tests only.
#[derive(Clone, Copy, Debug)]
pub struct KeyIdIdentity {
    pub address: Address,
}

impl Identity for KeyIdIdentity {
    open spec fn spec_address(&self) -> Seq<u8> {
        self.address@
    }

    open spec fn signs(&self, envelope: EnvelopeView, result: Result<EnvelopeView, ErrorView>) -> bool {
        result == Ok::<EnvelopeView, ErrorView>(EnvelopeView { key_id: self.address@, ..envelope })
    }

    fn address(&self) -> (r: Address) {
        self.address
    }

    open spec fn spec_public_key(&self) -> Option<Seq<u8>> {
        None
    }

    fn public_key(&self) -> (r: Option<Vec<u8>>) {
        None
    }

    proof fn lemma_signing_keeps_payload(&self, envelope: EnvelopeView, signed: EnvelopeView) {
    }

    fn sign_1(&self, envelope: Envelope) -> (r: Result<Envelope, ManyError>) {
        Ok(Envelope { key_id: self.address.to_vec(), payload: envelope.payload, signature: envelope.signature })
    }
}

/// Reads the address from the key id without checking any signature: an empty
/// key id is the anonymous address. Meant for tests only.
#[derive(Clone, Copy, Debug)]
pub struct AcceptAllVerifier;

/// What `AcceptAllVerifier` yields for an envelope.
pub open spec fn accept_all_outcome(e: EnvelopeView) -> Result<Seq<u8>, ErrorView> {
    if e.key_id.len() == 0 {
        Ok(anonymous_bytes())
    } else if e.key_id.len() == 32 {
        Ok(e.key_id)
    } else {
        Err((ErrorKind::DeserializationError, "Invalid address length."@))
    }
}

impl Verifier for AcceptAllVerifier {
    open spec fn outcome(&self, envelope: EnvelopeView) -> Result<Seq<u8>, ErrorView> {
        accept_all_outcome(envelope)
    }

    fn verify_1(&self, envelope: &Envelope) -> (r: Result<Address, ManyError>) {
        if envelope.key_id.len() == 0 {
            Ok(Address::anonymous())
        } else {
            Address::from_bytes(envelope.key_id.as_slice())
        }
    }
}

/// Verifies nothing: every envelope fails. Composing with it changes nothing.
#[derive(Clone, Copy, Debug)]
pub struct ErrorVerifier;

impl Verifier for ErrorVerifier {
    open spec fn outcome(&self, envelope: EnvelopeView) -> Result<Seq<u8>, ErrorView> {
        Err((ErrorKind::CouldNotVerifySignature, "No verifier"@))
    }

    fn verify_1(&self, envelope: &Envelope) -> (r: Result<Address, ManyError>) {
        Err(ManyError::new(ErrorKind::CouldNotVerifySignature, "No verifier"))
    }
}

/// Accepts only envelopes that carry no signature: an empty key id with an empty
/// signature, or a key id that reads as the anonymous address with an empty
/// signature. Resolves them to the anonymous address.
#[derive(Clone, Copy, Debug)]
pub struct AnonymousVerifier;

/// What `AnonymousVerifier` yields for an envelope.
pub open spec fn anonymous_outcome(e: EnvelopeView) -> Result<Seq<u8>, ErrorView> {
    if e.key_id.len() != 0 {
        if e.key_id.len() != 32 {
            Err((ErrorKind::DeserializationError, "Invalid address length."@))
        } else if e.key_id != anonymous_bytes() {
            Err((ErrorKind::Unknown, "Anonymous requires no key id."@))
        } else if e.signature.len() != 0 {
            Err((ErrorKind::Unknown, "Anonymous requires no signature."@))
        } else {
            Ok(anonymous_bytes())
        }
    } else if e.signature.len() != 0 {
        Err((ErrorKind::Unknown, "Anonymous requires no signature."@))
    } else {
        Ok(anonymous_bytes())
    }
}

impl Verifier for AnonymousVerifier {
    open spec fn outcome(&self, envelope: EnvelopeView) -> Result<Seq<u8>, ErrorView> {
        anonymous_outcome(envelope)
    }

    fn verify_1(&self, envelope: &Envelope) -> (r: Result<Address, ManyError>) {
        if envelope.key_id.len() != 0 {
            let a = match Address::from_bytes(envelope.key_id.as_slice()) {
                Ok(a) => a,
                Err(e) => {
                    return Err(e);
                },
            };
            if !a.is_anonymous() {
                Err(ManyError::unknown("Anonymous requires no key id."))
            } else if envelope.signature.len() != 0 {
                Err(ManyError::unknown("Anonymous requires no signature."))
            } else {
                Ok(Address::anonymous())
            }
        } else if envelope.signature.len() != 0 {
            Err(ManyError::unknown("Anonymous requires no signature."))
        } else {
            Ok(Address::anonymous())
        }
    }
}

/// The parts in order with `sep` between each two.
pub open spec fn joined(parts: Seq<Seq<char>>, sep: Seq<char>) -> Seq<char>
    decreases parts.len(),
{
    if parts.len() == 0 {
        Seq::empty()
    } else if parts.len() == 1 {
        parts[0]
    } else {
        joined(parts.drop_last(), sep) + sep + parts.last()
    }
}

/// The separator between member messages of a composite verifier's error.
pub open spec fn message_separator() -> Seq<char> {
    seq![',', ' ']
}

/// The parts in order, with `", "` between each two.
fn join_messages(parts: &Vec<String>) -> (r: String)
    ensures
        r@ == joined(parts@.map_values(|s: String| s@), message_separator()),
{
    let ghost views = parts@.map_values(|s: String| s@);
    let mut r = String::new();
    let mut i: usize = 0;
    while i < parts.len()
        invariant
            i <= parts@.len(),
            views == parts@.map_values(|s: String| s@),
            r@ == joined(views.take(i as int), message_separator()),
        decreases parts@.len() - i,
    {
        assert(views.take(i + 1).drop_last() =~= views.take(i as int));
        if i > 0 {
            r.append(", ");
            proof {
                reveal_strlit(", ");
                assert(", "@ =~= message_separator());
            }
        }
        r.append(parts[i].as_str());
        assert(views.take(i + 1).last() == parts@[i as int]@);
        i = i + 1;
        proof {
            if i == 1 {
                assert(views.take(1)[0] == parts@[0]@);
                assert(r@ =~= joined(views.take(i as int), message_separator()));
            }
        }
    }
    assert(views.take(parts@.len() as int) =~= views);
    r
}

/// Tries its members in order and returns the first success; when all fail, fails
/// with `could_not_verify_signature` carrying the members' messages, comma-joined.
/// With no members it fails on every envelope.
pub struct OneOfVerifier<V: Verifier> {
    pub verifiers: Vec<V>,
}

/// The address of the first member that accepts the envelope, if any.
pub open spec fn first_success<V: Verifier>(vs: Seq<V>, e: EnvelopeView) -> Option<Seq<u8>>
    decreases vs.len(),
{
    if vs.len() == 0 {
        None
    } else {
        match first_success(vs.drop_last(), e) {
            Some(a) => Some(a),
            None => match vs.last().outcome(e) {
                Ok(a) => Some(a),
                Err(_) => None,
            },
        }
    }
}

/// The message of each member's failure, in order (empty for a member that succeeds).
pub open spec fn failure_messages<V: Verifier>(vs: Seq<V>, e: EnvelopeView) -> Seq<Seq<char>> {
    Seq::new(
        vs.len(),
        |i: int|
            match vs[i].outcome(e) {
                Ok(_) => Seq::empty(),
                Err(x) => x.1,
            },
    )
}

/// What the composition of `vs` yields for an envelope.
pub open spec fn one_of_outcome<V: Verifier>(vs: Seq<V>, e: EnvelopeView) -> Result<Seq<u8>, ErrorView> {
    match first_success(vs, e) {
        Some(a) => Ok(a),
        None => Err((ErrorKind::CouldNotVerifySignature, joined(failure_messages(vs, e), message_separator()))),
    }
}

proof fn lemma_first_success_prefix<V: Verifier>(vs: Seq<V>, e: EnvelopeView, k: int)
    requires
        0 <= k <= vs.len(),
        first_success(vs.take(k), e) is Some,
    ensures
        first_success(vs, e) == first_success(vs.take(k), e),
    decreases vs.len(),
{
    if k == vs.len() {
        assert(vs.take(k) =~= vs);
    } else {
        assert(vs.drop_last().take(k) =~= vs.take(k));
        lemma_first_success_prefix(vs.drop_last(), e, k);
    }
}

proof fn lemma_first_success_none<V: Verifier>(vs: Seq<V>, e: EnvelopeView)
    ensures
        first_success(vs, e) is None <==> forall|j: int| 0 <= j < vs.len() ==> vs[j].outcome(e) is Err,
    decreases vs.len(),
{
    if vs.len() > 0 {
        let p = vs.drop_last();
        lemma_first_success_none(p, e);
        if first_success(vs, e) is None {
            assert forall|j: int| 0 <= j < vs.len() implies vs[j].outcome(e) is Err by {
                if j < vs.len() - 1 {
                    assert(p[j] == vs[j]);
                }
            }
        } else if forall|j: int| 0 <= j < vs.len() ==> vs[j].outcome(e) is Err {
            assert forall|j: int| 0 <= j < p.len() implies p[j].outcome(e) is Err by {
                assert(p[j] == vs[j]);
            }
            assert(vs[vs.len() - 1].outcome(e) is Err);
        }
    }
}

proof fn lemma_first_success_at<V: Verifier>(vs: Seq<V>, e: EnvelopeView, i: int, a: Seq<u8>)
    requires
        0 <= i < vs.len(),
        vs[i].outcome(e) == Ok::<Seq<u8>, ErrorView>(a),
        forall|j: int| 0 <= j < i ==> vs[j].outcome(e) is Err,
    ensures
        first_success(vs, e) == Some(a),
    decreases vs.len(),
{
    let p = vs.drop_last();
    if i < vs.len() - 1 {
        assert(p[i] == vs[i]);
        assert forall|j: int| 0 <= j < i implies p[j].outcome(e) is Err by {
            assert(p[j] == vs[j]);
        }
        lemma_first_success_at(p, e, i, a);
    } else {
        lemma_first_success_none(p, e);
        assert forall|j: int| 0 <= j < p.len() implies p[j].outcome(e) is Err by {
            assert(p[j] == vs[j]);
        }
    }
}

proof fn lemma_first_success_witness<V: Verifier>(vs: Seq<V>, e: EnvelopeView, a: Seq<u8>)
    requires
        first_success(vs, e) == Some(a),
    ensures
        exists|i: int|
            0 <= i < vs.len() && vs[i].outcome(e) == Ok::<Seq<u8>, ErrorView>(a) && forall|j: int|
                0 <= j < i ==> vs[j].outcome(e) is Err,
    decreases vs.len(),
{
    let p = vs.drop_last();
    if first_success(p, e) is Some {
        lemma_first_success_witness(p, e, a);
        let i = choose|i: int|
            0 <= i < p.len() && p[i].outcome(e) == Ok::<Seq<u8>, ErrorView>(a) && forall|j: int|
                0 <= j < i ==> p[j].outcome(e) is Err;
        assert(vs[i] == p[i]);
        assert forall|j: int| 0 <= j < i implies vs[j].outcome(e) is Err by {
            assert(p[j] == vs[j]);
        }
    } else {
        lemma_first_success_none(p, e);
        let i = vs.len() - 1;
        assert forall|j: int| 0 <= j < i implies vs[j].outcome(e) is Err by {
            assert(p[j] == vs[j]);
        }
    }
}

/// Composition of verifiers: the composite accepts an envelope as `a` exactly when
/// some member accepts it as `a` and every earlier member rejects it. When it
/// rejects, every member rejected, and its message is the members' messages in
/// order, joined by `", "`.
pub proof fn lemma_one_of_verifier<V: Verifier>(vs: Seq<V>, e: EnvelopeView, a: Seq<u8>)
    ensures
        one_of_outcome(vs, e) == Ok::<Seq<u8>, ErrorView>(a) <==> exists|i: int|
            0 <= i < vs.len() && vs[i].outcome(e) == Ok::<Seq<u8>, ErrorView>(a) && forall|j: int|
                0 <= j < i ==> vs[j].outcome(e) is Err,
        one_of_outcome(vs, e) is Err ==> {
            &&& forall|j: int| 0 <= j < vs.len() ==> vs[j].outcome(e) is Err
            &&& one_of_outcome(vs, e)->Err_0.0 == ErrorKind::CouldNotVerifySignature
            &&& one_of_outcome(vs, e)->Err_0.1 == joined(failure_messages(vs, e), message_separator())
            &&& forall|j: int| 0 <= j < vs.len() ==> failure_messages(vs, e)[j] == vs[j].outcome(e)->Err_0.1
        },
{
    lemma_first_success_none(vs, e);
    if first_success(vs, e) == Some(a) {
        lemma_first_success_witness(vs, e, a);
    }
    if exists|i: int|
        0 <= i < vs.len() && vs[i].outcome(e) == Ok::<Seq<u8>, ErrorView>(a) && forall|j: int|
            0 <= j < i ==> vs[j].outcome(e) is Err {
        let i = choose|i: int|
            0 <= i < vs.len() && vs[i].outcome(e) == Ok::<Seq<u8>, ErrorView>(a) && forall|j: int|
                0 <= j < i ==> vs[j].outcome(e) is Err;
        lemma_first_success_at(vs, e, i, a);
    }
}

impl<V: Verifier> Verifier for OneOfVerifier<V> {
    open spec fn outcome(&self, envelope: EnvelopeView) -> Result<Seq<u8>, ErrorView> {
        one_of_outcome(self.verifiers@, envelope)
    }

    fn verify_1(&self, envelope: &Envelope) -> (r: Result<Address, ManyError>) {
        let ghost vs = self.verifiers@;
        let ghost e = envelope@;
        let mut messages: Vec<String> = Vec::new();
        let mut i: usize = 0;
        while i < self.verifiers.len()
            invariant
                vs == self.verifiers@,
                e == envelope@,
                i <= vs.len(),
                messages@.len() == i,
                first_success(vs.take(i as int), e) is None,
                messages@.map_values(|s: String| s@) == failure_messages(vs.take(i as int), e),
            decreases vs.len() - i,
        {
            let ghost before = messages@.map_values(|s: String| s@);
            assert(vs.take(i + 1).drop_last() =~= vs.take(i as int));
            match self.verifiers[i].verify_1(envelope) {
                Ok(a) => {
                    proof {
                        lemma_first_success_prefix(vs, e, i + 1);
                    }
                    return Ok(a);
                },
                Err(err) => {
                    let ghost m = err.message@;
                    let ghost old_messages = messages@;
                    messages.push(err.message);
                    assert(messages@ == old_messages.push(messages@[i as int]));
                    let ghost after = messages@.map_values(|s: String| s@);
                    assert forall|j: int| 0 <= j <= i implies #[trigger] after[j]
                        == failure_messages(vs.take(i + 1), e)[j] by {
                        if j < i {
                            assert(after[j] == old_messages[j]@);
                            assert(before[j] == old_messages[j]@);
                            assert(vs.take(i + 1)[j] == vs.take(i as int)[j]);
                            assert(before[j] == failure_messages(vs.take(i as int), e)[j]);
                        } else {
                            assert(after[j] == m);
                            assert(vs.take(i + 1)[j] == vs[j]);
                            assert(m == failure_messages(vs.take(i + 1), e)[j]);
                        }
                    }
                    assert(messages@.map_values(|s: String| s@) =~= failure_messages(vs.take(i + 1), e));
                },
            }
            i = i + 1;
        }
        assert(vs.take(vs.len() as int) =~= vs);
        Err(ManyError::with_message(ErrorKind::CouldNotVerifySignature, join_messages(&messages)))
    }
}

} // verus!
