//! Delegation certificates: a signed statement that one address lets others act
//! for it until an expiration, and their wire format.
use crate::address::{same_principal, Address};
use crate::cbor::{
    bstr, head, holds_at, lemma_bstr_round_trip, lemma_head_round_trip, lemma_holds_split,
    lemma_pow256_values, parse_bstr, parse_head, pow256, read_bstr, read_head, write_bstr, write_head,
};
use crate::envelope::{Envelope, EnvelopeView};
use crate::error::{ErrorKind, ErrorView, ManyError};
use crate::identity::{address_result, envelope_result, Identity, Verifier};
use vstd::prelude::*;

verus! {

/// Seconds since the Unix epoch.
pub type Timestamp = u64;

/// CBOR tag of an address.
pub const ADDRESS_TAG: u64 = 10000;

/// CBOR tag of a timestamp in seconds.
pub const TIME_TAG: u64 = 1;

pub struct CertificateView {
    pub from: Seq<u8>,
    pub to: Seq<Seq<u8>>,
    pub expiration: u64,
    pub memo: Option<Seq<u8>>,
    pub finality: Option<bool>,
    pub threshold: Option<u64>,
}

/// A delegation certificate: `from` lets each address of `to` act for it until
/// `expiration`. A final certificate must end a delegation chain. A threshold of
/// 0 makes it invalid; an absent one counts as 1.
#[derive(Debug, PartialEq, Eq)]
pub struct Certificate {
    pub from: Address,
    pub to: Vec<Address>,
    pub expiration: Timestamp,
    pub memo: Option<Vec<u8>>,
    pub finality: Option<bool>,
    pub threshold: Option<u64>,
}

pub open spec fn addresses_view(v: Seq<Address>) -> Seq<Seq<u8>> {
    v.map_values(|a: Address| a@)
}

impl View for Certificate {
    type V = CertificateView;

    open spec fn view(&self) -> CertificateView {
        CertificateView {
            from: self.from@,
            to: addresses_view(self.to@),
            expiration: self.expiration,
            memo: match self.memo {
                Some(m) => Some(m@),
                None => None,
            },
            finality: self.finality,
            threshold: self.threshold,
        }
    }
}

/// The value of a decoding outcome.
pub open spec fn certificate_result(r: Result<Certificate, ManyError>) -> Result<CertificateView, ErrorView> {
    match r {
        Ok(c) => Ok(c@),
        Err(e) => Err(e@),
    }
}

/// Every address holds 32 bytes and every length fits a CBOR argument.
pub open spec fn certificate_wf(c: CertificateView) -> bool {
    &&& c.from.len() == 32
    &&& forall|i: int| 0 <= i < c.to.len() ==> #[trigger] c.to[i].len() == 32
    &&& c.to.len() < pow256(8)
    &&& (c.memo matches Some(m) ==> m.len() < pow256(8))
}

pub open spec fn spec_is_final(c: CertificateView) -> bool {
    c.finality == Some(true)
}

// ---- wire format ----

pub open spec fn uint(v: u64) -> Seq<u8> {
    head(0, v)
}

pub open spec fn address_item(a: Seq<u8>) -> Seq<u8> {
    head(6, ADDRESS_TAG) + bstr(a)
}

pub open spec fn address_items(v: Seq<Seq<u8>>) -> Seq<u8>
    decreases v.len(),
{
    if v.len() == 0 {
        Seq::empty()
    } else {
        address_item(v[0]) + address_items(v.drop_first())
    }
}

/// One address stands alone; any other number of them forms an array.
pub open spec fn to_item(v: Seq<Seq<u8>>) -> Seq<u8> {
    if v.len() == 1 {
        address_item(v[0])
    } else {
        head(4, v.len() as u64) + address_items(v)
    }
}

pub open spec fn time_item(t: u64) -> Seq<u8> {
    head(6, TIME_TAG) + uint(t)
}

pub open spec fn bool_item(b: bool) -> Seq<u8> {
    head(7, if b { 21 } else { 20 })
}

pub open spec fn optional_count(c: CertificateView) -> u64 {
    ((if c.memo is Some { 1int } else { 0int }) + (if c.finality is Some { 1int } else { 0int }) + (
    if c.threshold is Some { 1int } else { 0int })) as u64
}

pub open spec fn memo_entry(m: Option<Seq<u8>>) -> Seq<u8> {
    match m {
        Some(b) => uint(3) + bstr(b),
        None => Seq::empty(),
    }
}

pub open spec fn final_entry(f: Option<bool>) -> Seq<u8> {
    match f {
        Some(b) => uint(4) + bool_item(b),
        None => Seq::empty(),
    }
}

pub open spec fn threshold_entry(t: Option<u64>) -> Seq<u8> {
    match t {
        Some(v) => uint(5) + uint(v),
        None => Seq::empty(),
    }
}

/// The encoding of a certificate: a CBOR map keyed by small integers, with the
/// absent optional fields left out.
pub open spec fn certificate_bytes(c: CertificateView) -> Seq<u8> {
    head(5, (3 + optional_count(c)) as u64) + (uint(0) + (address_item(c.from) + (uint(1) + (
    to_item(c.to) + (uint(2) + (time_item(c.expiration) + (memo_entry(c.memo) + (final_entry(
    c.finality) + threshold_entry(c.threshold)))))))))
}

pub open spec fn parse_uint(s: Seq<u8>, pos: int) -> Option<(u64, int)> {
    match parse_head(s, pos) {
        Some((m, v, p)) => if m == 0 {
            Some((v, p))
        } else {
            None
        },
        None => None,
    }
}

pub open spec fn parse_address(s: Seq<u8>, pos: int) -> Option<(Seq<u8>, int)> {
    match parse_head(s, pos) {
        Some((m, t, p)) => if m == 6 && t == ADDRESS_TAG {
            match parse_bstr(s, p) {
                Some((b, q)) => if b.len() == 32 {
                    Some((b, q))
                } else {
                    None
                },
                None => None,
            }
        } else {
            None
        },
        None => None,
    }
}

/// Reads `n` addresses after those already read into `acc`.
pub open spec fn parse_addresses(s: Seq<u8>, pos: int, n: nat, acc: Seq<Seq<u8>>) -> Option<
    (Seq<Seq<u8>>, int),
>
    decreases n,
{
    if n == 0 {
        Some((acc, pos))
    } else {
        match parse_address(s, pos) {
            Some((a, p)) => parse_addresses(s, p, (n - 1) as nat, acc.push(a)),
            None => None,
        }
    }
}

pub open spec fn parse_to(s: Seq<u8>, pos: int) -> Option<(Seq<Seq<u8>>, int)> {
    match parse_head(s, pos) {
        Some((m, n, p)) => if m == 4 {
            parse_addresses(s, p, n as nat, Seq::empty())
        } else {
            match parse_address(s, pos) {
                Some((a, q)) => Some((seq![a], q)),
                None => None,
            }
        },
        None => None,
    }
}

pub open spec fn parse_time(s: Seq<u8>, pos: int) -> Option<(u64, int)> {
    match parse_head(s, pos) {
        Some((m, t, p)) => if m == 6 && t == TIME_TAG {
            parse_uint(s, p)
        } else {
            None
        },
        None => None,
    }
}

pub open spec fn parse_bool(s: Seq<u8>, pos: int) -> Option<(bool, int)> {
    match parse_head(s, pos) {
        Some((m, v, p)) => if m == 7 && v == 21 {
            Some((true, p))
        } else if m == 7 && v == 20 {
            Some((false, p))
        } else {
            None
        },
        None => None,
    }
}

/// One entry of a certificate map, by its key.
pub enum FieldView {
    From(Seq<u8>),
    To(Seq<Seq<u8>>),
    Expiration(u64),
    Memo(Seq<u8>),
    Finality(bool),
    Threshold(u64),
}

/// The fields read so far.
pub struct FieldsView {
    pub from: Option<Seq<u8>>,
    pub to: Option<Seq<Seq<u8>>>,
    pub expiration: Option<u64>,
    pub memo: Option<Seq<u8>>,
    pub finality: Option<bool>,
    pub threshold: Option<u64>,
}

pub open spec fn no_fields() -> FieldsView {
    FieldsView { from: None, to: None, expiration: None, memo: None, finality: None, threshold: None }
}

/// A later entry with the same key replaces an earlier one.
pub open spec fn set_field(f: FieldsView, v: FieldView) -> FieldsView {
    match v {
        FieldView::From(a) => FieldsView { from: Some(a), ..f },
        FieldView::To(t) => FieldsView { to: Some(t), ..f },
        FieldView::Expiration(e) => FieldsView { expiration: Some(e), ..f },
        FieldView::Memo(m) => FieldsView { memo: Some(m), ..f },
        FieldView::Finality(b) => FieldsView { finality: Some(b), ..f },
        FieldView::Threshold(t) => FieldsView { threshold: Some(t), ..f },
    }
}

/// Reads one entry: its key, then the value that key calls for.
pub open spec fn parse_entry(s: Seq<u8>, pos: int) -> Option<(FieldView, int)> {
    match parse_uint(s, pos) {
        Some((k, p)) => if k == 0 {
            match parse_address(s, p) {
                Some((a, q)) => Some((FieldView::From(a), q)),
                None => None,
            }
        } else if k == 1 {
            match parse_to(s, p) {
                Some((t, q)) => Some((FieldView::To(t), q)),
                None => None,
            }
        } else if k == 2 {
            match parse_time(s, p) {
                Some((e, q)) => Some((FieldView::Expiration(e), q)),
                None => None,
            }
        } else if k == 3 {
            match parse_bstr(s, p) {
                Some((m, q)) => Some((FieldView::Memo(m), q)),
                None => None,
            }
        } else if k == 4 {
            match parse_bool(s, p) {
                Some((b, q)) => Some((FieldView::Finality(b), q)),
                None => None,
            }
        } else if k == 5 {
            match parse_uint(s, p) {
                Some((t, q)) => Some((FieldView::Threshold(t), q)),
                None => None,
            }
        } else {
            None
        },
        None => None,
    }
}

/// Reads `n` entries, in any order, onto `acc`.
pub open spec fn parse_entries(s: Seq<u8>, pos: int, n: nat, acc: FieldsView) -> Option<(FieldsView, int)>
    decreases n,
{
    if n == 0 {
        Some((acc, pos))
    } else {
        match parse_entry(s, pos) {
            Some((v, q)) => parse_entries(s, q, (n - 1) as nat, set_field(acc, v)),
            None => None,
        }
    }
}

/// The byte that ends an indefinite-length item.
pub const BREAK: u8 = 0xff;

/// The head of an indefinite-length map.
pub const INDEFINITE_MAP: u8 = 0xbf;

/// Reads entries, in any order, onto `acc` until a break.
pub open spec fn parse_entries_indefinite(s: Seq<u8>, pos: int, acc: FieldsView) -> Option<(FieldsView, int)>
    decreases s.len() - pos,
{
    if pos < 0 || pos >= s.len() {
        None
    } else if s[pos] == BREAK {
        Some((acc, pos + 1))
    } else {
        match parse_entry(s, pos) {
            Some((v, q)) => if pos < q <= s.len() {
                parse_entries_indefinite(s, q, set_field(acc, v))
            } else {
                None
            },
            None => None,
        }
    }
}

/// The certificate the fields make, where the required ones are there.
pub open spec fn fields_certificate(f: FieldsView) -> Option<CertificateView> {
    match (f.from, f.to, f.expiration) {
        (Some(from), Some(to), Some(expiration)) => Some(
            CertificateView { from, to, expiration, memo: f.memo, finality: f.finality, threshold: f.threshold },
        ),
        _ => None,
    }
}

pub open spec fn certificate_of(r: Option<(FieldsView, int)>) -> Option<(CertificateView, int)> {
    match r {
        Some((f, e)) => match fields_certificate(f) {
            Some(c) => Some((c, e)),
            None => None,
        },
        None => None,
    }
}

/// Reads a certificate map, of definite or indefinite length, at `pos`.
pub open spec fn parse_certificate(s: Seq<u8>, pos: int) -> Option<(CertificateView, int)> {
    if 0 <= pos < s.len() && s[pos] == INDEFINITE_MAP {
        certificate_of(parse_entries_indefinite(s, pos + 1, no_fields()))
    } else {
        match parse_head(s, pos) {
            Some((m, n, p)) => if m == 5 {
                certificate_of(parse_entries(s, p, n as nat, no_fields()))
            } else {
                None
            },
            None => None,
        }
    }
}

/// The certificate that `bytes` encode, where they encode one and nothing more.
pub open spec fn decode_certificate(bytes: Seq<u8>) -> Option<CertificateView> {
    match parse_certificate(bytes, 0) {
        Some((c, end)) => if end == bytes.len() {
            Some(c)
        } else {
            None
        },
        None => None,
    }
}

// ---- the encoding reads back ----

proof fn lemma_uint_round_trip(s: Seq<u8>, pos: int, v: u64)
    requires
        holds_at(s, pos, uint(v)),
    ensures
        parse_uint(s, pos) == Some((v, pos + uint(v).len())),
{
    lemma_head_round_trip(s, pos, 0, v);
}

pub proof fn lemma_address_round_trip(s: Seq<u8>, pos: int, a: Seq<u8>)
    requires
        a.len() == 32,
        holds_at(s, pos, address_item(a)),
    ensures
        parse_address(s, pos) == Some((a, pos + address_item(a).len())),
{
    lemma_pow256_values();
    let h = head(6, ADDRESS_TAG);
    lemma_holds_split(s, pos, h, bstr(a));
    lemma_head_round_trip(s, pos, 6, ADDRESS_TAG);
    lemma_bstr_round_trip(s, pos + h.len(), a);
}

proof fn lemma_addresses_round_trip(s: Seq<u8>, pos: int, v: Seq<Seq<u8>>, acc: Seq<Seq<u8>>)
    requires
        forall|i: int| 0 <= i < v.len() ==> #[trigger] v[i].len() == 32,
        holds_at(s, pos, address_items(v)),
    ensures
        parse_addresses(s, pos, v.len(), acc) == Some((acc + v, pos + address_items(v).len())),
    decreases v.len(),
{
    if v.len() == 0 {
        assert(acc + v =~= acc);
    } else {
        let first = address_item(v[0]);
        lemma_holds_split(s, pos, first, address_items(v.drop_first()));
        lemma_address_round_trip(s, pos, v[0]);
        assert forall|i: int| 0 <= i < v.drop_first().len() implies #[trigger] v.drop_first()[i].len()
            == 32 by {
            assert(v.drop_first()[i] == v[i + 1]);
        }
        lemma_addresses_round_trip(s, pos + first.len(), v.drop_first(), acc.push(v[0]));
        assert(acc.push(v[0]) + v.drop_first() =~= acc + v);
    }
}

proof fn lemma_to_round_trip(s: Seq<u8>, pos: int, v: Seq<Seq<u8>>)
    requires
        forall|i: int| 0 <= i < v.len() ==> #[trigger] v[i].len() == 32,
        v.len() < pow256(8),
        holds_at(s, pos, to_item(v)),
    ensures
        parse_to(s, pos) == Some((v, pos + to_item(v).len())),
{
    lemma_pow256_values();
    if v.len() == 1 {
        lemma_holds_split(s, pos, head(6, ADDRESS_TAG), bstr(v[0]));
        lemma_head_round_trip(s, pos, 6, ADDRESS_TAG);
        lemma_address_round_trip(s, pos, v[0]);
        assert(seq![v[0]] =~= v);
    } else {
        let h = head(4, v.len() as u64);
        lemma_holds_split(s, pos, h, address_items(v));
        lemma_head_round_trip(s, pos, 4, v.len() as u64);
        lemma_addresses_round_trip(s, pos + h.len(), v, Seq::empty());
        assert(Seq::<Seq<u8>>::empty() + v =~= v);
    }
}

proof fn lemma_time_round_trip(s: Seq<u8>, pos: int, t: u64)
    requires
        holds_at(s, pos, time_item(t)),
    ensures
        parse_time(s, pos) == Some((t, pos + time_item(t).len())),
{
    let h = head(6, TIME_TAG);
    lemma_holds_split(s, pos, h, uint(t));
    lemma_head_round_trip(s, pos, 6, TIME_TAG);
    lemma_uint_round_trip(s, pos + h.len(), t);
}

proof fn lemma_entry_round_trip(s: Seq<u8>, pos: int, k: u64, item: Seq<u8>, v: FieldView)
    requires
        holds_at(s, pos, uint(k)),
        holds_at(s, pos + uint(k).len(), item),
        match v {
            FieldView::From(a) => k == 0 && a.len() == 32 && item == address_item(a),
            FieldView::To(t) => k == 1 && (forall|i: int| 0 <= i < t.len() ==> #[trigger] t[i].len() == 32)
                && t.len() < pow256(8) && item == to_item(t),
            FieldView::Expiration(e) => k == 2 && item == time_item(e),
            FieldView::Memo(m) => k == 3 && m.len() < pow256(8) && item == bstr(m),
            FieldView::Finality(b) => k == 4 && item == bool_item(b),
            FieldView::Threshold(t) => k == 5 && item == uint(t),
        },
    ensures
        parse_entry(s, pos) == Some((v, pos + uint(k).len() + item.len())),
{
    lemma_uint_round_trip(s, pos, k);
    let p = pos + uint(k).len();
    match v {
        FieldView::From(a) => lemma_address_round_trip(s, p, a),
        FieldView::To(t) => lemma_to_round_trip(s, p, t),
        FieldView::Expiration(e) => lemma_time_round_trip(s, p, e),
        FieldView::Memo(m) => lemma_bstr_round_trip(s, p, m),
        FieldView::Finality(b) => lemma_head_round_trip(s, p, 7, if b { 21 } else { 20 }),
        FieldView::Threshold(t) => lemma_uint_round_trip(s, p, t),
    }
}

proof fn lemma_threshold_entries(s: Seq<u8>, pos: int, t: Option<u64>, acc: FieldsView)
    requires
        holds_at(s, pos, threshold_entry(t)),
    ensures
        parse_entries(s, pos, if t is Some { 1 } else { 0 }, acc) == Some(
            (if t is Some { FieldsView { threshold: t, ..acc } } else { acc }, pos + threshold_entry(t).len()),
        ),
{
    if let Some(v) = t {
        lemma_holds_split(s, pos, uint(5), uint(v));
        lemma_entry_round_trip(s, pos, 5, uint(v), FieldView::Threshold(v));
        let end = pos + threshold_entry(t).len();
        let acc2 = set_field(acc, FieldView::Threshold(v));
        assert(parse_entries(s, end, 0, acc2) == Some((acc2, end)));
    }
}

proof fn lemma_final_entries(s: Seq<u8>, pos: int, f: Option<bool>, t: Option<u64>, acc: FieldsView)
    requires
        acc.threshold is None,
        holds_at(s, pos, final_entry(f) + threshold_entry(t)),
    ensures
        parse_entries(
            s,
            pos,
            ((if f is Some { 1int } else { 0int }) + (if t is Some { 1int } else { 0int })) as nat,
            acc,
        ) == Some(
            (
                FieldsView { finality: if f is Some { f } else { acc.finality }, threshold: t, ..acc },
                pos + (final_entry(f) + threshold_entry(t)).len(),
            ),
        ),
{
    lemma_holds_split(s, pos, final_entry(f), threshold_entry(t));
    let q = pos + final_entry(f).len();
    if let Some(b) = f {
        lemma_holds_split(s, pos, uint(4), bool_item(b));
        lemma_entry_round_trip(s, pos, 4, bool_item(b), FieldView::Finality(b));
        let acc2 = set_field(acc, FieldView::Finality(b));
        lemma_threshold_entries(s, q, t, acc2);
    } else {
        assert(final_entry(f) + threshold_entry(t) =~= threshold_entry(t));
        lemma_threshold_entries(s, pos, t, acc);
    }
}

proof fn lemma_optional_entries(s: Seq<u8>, pos: int, c: CertificateView, acc: FieldsView)
    requires
        acc.memo is None,
        acc.finality is None,
        acc.threshold is None,
        c.memo matches Some(m) ==> m.len() < pow256(8),
        holds_at(s, pos, memo_entry(c.memo) + (final_entry(c.finality) + threshold_entry(c.threshold))),
    ensures
        parse_entries(s, pos, optional_count(c) as nat, acc) == Some(
            (
                FieldsView { memo: c.memo, finality: c.finality, threshold: c.threshold, ..acc },
                pos + (memo_entry(c.memo) + (final_entry(c.finality) + threshold_entry(c.threshold))).len(),
            ),
        ),
{
    let rest = final_entry(c.finality) + threshold_entry(c.threshold);
    lemma_holds_split(s, pos, memo_entry(c.memo), rest);
    if let Some(m) = c.memo {
        lemma_holds_split(s, pos, uint(3), bstr(m));
        lemma_entry_round_trip(s, pos, 3, bstr(m), FieldView::Memo(m));
        let acc2 = set_field(acc, FieldView::Memo(m));
        lemma_final_entries(s, pos + memo_entry(c.memo).len(), c.finality, c.threshold, acc2);
    } else {
        assert(memo_entry(c.memo) + rest =~= rest);
        lemma_final_entries(s, pos, c.finality, c.threshold, acc);
    }
}

/// A well-formed certificate reads back from its encoding, wherever it stands.
pub proof fn lemma_certificate_bytes_round_trip(s: Seq<u8>, pos: int, c: CertificateView)
    requires
        certificate_wf(c),
        holds_at(s, pos, certificate_bytes(c)),
    ensures
        parse_certificate(s, pos) == Some((c, pos + certificate_bytes(c).len())),
{
    lemma_pow256_values();
    let n = (3 + optional_count(c)) as u64;
    let h = head(5, n);
    let b1 = uint(0);
    let b2 = address_item(c.from);
    let b3 = uint(1);
    let b4 = to_item(c.to);
    let b5 = uint(2);
    let b6 = time_item(c.expiration);
    let b7 = memo_entry(c.memo) + (final_entry(c.finality) + threshold_entry(c.threshold));
    let p0 = pos + h.len();
    let p1 = p0 + b1.len();
    let p2 = p1 + b2.len();
    let p3 = p2 + b3.len();
    let p4 = p3 + b4.len();
    let p5 = p4 + b5.len();
    let p6 = p5 + b6.len();
    lemma_holds_split(s, pos, h, b1 + (b2 + (b3 + (b4 + (b5 + (b6 + b7))))));
    lemma_holds_split(s, p0, b1, b2 + (b3 + (b4 + (b5 + (b6 + b7)))));
    lemma_holds_split(s, p1, b2, b3 + (b4 + (b5 + (b6 + b7))));
    lemma_holds_split(s, p2, b3, b4 + (b5 + (b6 + b7)));
    lemma_holds_split(s, p3, b4, b5 + (b6 + b7));
    lemma_holds_split(s, p4, b5, b6 + b7);
    lemma_holds_split(s, p5, b6, b7);
    lemma_head_round_trip(s, pos, 5, n);
    assert(s[pos] == h[0]);
    assert(s[pos] != INDEFINITE_MAP);
    lemma_entry_round_trip(s, p0, 0, b2, FieldView::From(c.from));
    lemma_entry_round_trip(s, p2, 1, b4, FieldView::To(c.to));
    lemma_entry_round_trip(s, p4, 2, b6, FieldView::Expiration(c.expiration));
    let f1 = set_field(no_fields(), FieldView::From(c.from));
    let f2 = set_field(f1, FieldView::To(c.to));
    let f3 = set_field(f2, FieldView::Expiration(c.expiration));
    assert(parse_entries(s, p0, n as nat, no_fields()) == parse_entries(s, p2, (n - 1) as nat, f1));
    assert(parse_entries(s, p2, (n - 1) as nat, f1) == parse_entries(s, p4, (n - 2) as nat, f2));
    assert(parse_entries(s, p4, (n - 2) as nat, f2) == parse_entries(s, p6, (n - 3) as nat, f3));
    lemma_optional_entries(s, p6, c, f3);
    assert(p6 + b7.len() == pos + certificate_bytes(c).len());
}

/// Decoding the encoding of a well-formed certificate gives it back.
pub proof fn lemma_decode_certificate_bytes(c: CertificateView)
    requires
        certificate_wf(c),
    ensures
        decode_certificate(certificate_bytes(c)) == Some(c),
{
    let b = certificate_bytes(c);
    assert(b.subrange(0, b.len() as int) =~= b);
    lemma_certificate_bytes_round_trip(b, 0, c);
}

proof fn lemma_address_items_push(w: Seq<Seq<u8>>)
    requires
        w.len() > 0,
    ensures
        address_items(w) == address_items(w.drop_last()) + address_item(w.last()),
    decreases w.len(),
{
    if w.len() == 1 {
        assert(w.drop_last() =~= Seq::<Seq<u8>>::empty());
        assert(address_items(w.drop_first()) == Seq::<u8>::empty());
        assert(address_items(w) =~= address_items(w.drop_last()) + address_item(w.last()));
    } else {
        lemma_address_items_push(w.drop_first());
        assert(w.drop_first().drop_last() =~= w.drop_last().drop_first());
        assert(w.drop_last()[0] == w[0]);
        assert(address_items(w) =~= address_items(w.drop_last()) + address_item(w.last()));
    }
}

// ---- executable encoding and decoding ----

pub fn write_address(out: &mut Vec<u8>, a: &Address)
    ensures
        final(out)@ == old(out)@ + address_item(a@),
{
    write_head(out, 6, ADDRESS_TAG);
    let bytes = a.to_vec();
    write_bstr(out, bytes.as_slice());
    assert(final(out)@ =~= old(out)@ + address_item(a@));
}

fn write_to(out: &mut Vec<u8>, to: &Vec<Address>)
    ensures
        final(out)@ == old(out)@ + to_item(addresses_view(to@)),
{
    let ghost v = addresses_view(to@);
    if to.len() == 1 {
        write_address(out, &to[0]);
        return;
    }
    write_head(out, 4, to.len() as u64);
    let ghost start = out@;
    let mut i: usize = 0;
    while i < to.len()
        invariant
            v == addresses_view(to@),
            i <= to@.len(),
            out@ == start + address_items(v.take(i as int)),
        decreases to@.len() - i,
    {
        write_address(out, &to[i]);
        proof {
            lemma_address_items_push(v.take(i + 1));
            assert(v.take(i + 1).drop_last() =~= v.take(i as int));
        }
        i = i + 1;
    }
    assert(v.take(to@.len() as int) =~= v);
    assert(final(out)@ =~= old(out)@ + to_item(v));
}

fn read_uint(s: &[u8], pos: usize) -> (r: Option<(u64, usize)>)
    ensures
        match r {
            Some((v, p)) => parse_uint(s@, pos as int) == Some((v, p as int)),
            None => parse_uint(s@, pos as int) is None,
        },
{
    match read_head(s, pos) {
        Some((m, v, p)) => if m == 0 {
            Some((v, p))
        } else {
            None
        },
        None => None,
    }
}

pub fn read_address(s: &[u8], pos: usize) -> (r: Option<(Address, usize)>)
    ensures
        match r {
            Some((a, q)) => parse_address(s@, pos as int) == Some((a@, q as int)),
            None => parse_address(s@, pos as int) is None,
        },
{
    match read_head(s, pos) {
        Some((m, t, p)) => {
            if m != 6 || t != ADDRESS_TAG {
                return None;
            }
            match read_bstr(s, p) {
                Some((b, q)) => match Address::from_bytes(b.as_slice()) {
                    Ok(a) => Some((a, q)),
                    Err(_) => None,
                },
                None => None,
            }
        },
        None => None,
    }
}

fn read_to(s: &[u8], pos: usize) -> (r: Option<(Vec<Address>, usize)>)
    ensures
        match r {
            Some((to, q)) => parse_to(s@, pos as int) == Some((addresses_view(to@), q as int)),
            None => parse_to(s@, pos as int) is None,
        },
{
    match read_head(s, pos) {
        Some((m, n, p)) => {
            if m != 4 {
                return match read_address(s, pos) {
                    Some((a, q)) => {
                        let to = vec![a];
                        assert(addresses_view(to@) =~= seq![a@]);
                        Some((to, q))
                    },
                    None => None,
                };
            }
            let mut to: Vec<Address> = Vec::new();
            assert(addresses_view(to@) =~= Seq::<Seq<u8>>::empty());
            let mut cur: usize = p;
            let mut k: u64 = 0;
            while k < n
                invariant
                    k <= n,
                    parse_head(s@, pos as int) == Some((4u8, n, p as int)),
                    parse_addresses(s@, p as int, n as nat, Seq::empty()) == parse_addresses(
                        s@,
                        cur as int,
                        (n - k) as nat,
                        addresses_view(to@),
                    ),
                decreases n - k,
            {
                match read_address(s, cur) {
                    Some((a, q)) => {
                        let ghost before = addresses_view(to@);
                        to.push(a);
                        assert(addresses_view(to@) =~= before.push(a@));
                        cur = q;
                    },
                    None => {
                        assert(parse_addresses(s@, cur as int, (n - k) as nat, addresses_view(to@)) is None);
                        return None;
                    },
                }
                k = k + 1;
            }
            Some((to, cur))
        },
        None => None,
    }
}

fn read_time(s: &[u8], pos: usize) -> (r: Option<(u64, usize)>)
    ensures
        match r {
            Some((t, p)) => parse_time(s@, pos as int) == Some((t, p as int)),
            None => parse_time(s@, pos as int) is None,
        },
{
    match read_head(s, pos) {
        Some((m, t, p)) => if m == 6 && t == TIME_TAG {
            read_uint(s, p)
        } else {
            None
        },
        None => None,
    }
}

fn read_bool(s: &[u8], pos: usize) -> (r: Option<(bool, usize)>)
    ensures
        match r {
            Some((b, p)) => parse_bool(s@, pos as int) == Some((b, p as int)),
            None => parse_bool(s@, pos as int) is None,
        },
{
    match read_head(s, pos) {
        Some((m, v, p)) => if m == 7 && v == 21 {
            Some((true, p))
        } else if m == 7 && v == 20 {
            Some((false, p))
        } else {
            None
        },
        None => None,
    }
}

/// One entry of a certificate map, by its key.
pub enum Field {
    From(Address),
    To(Vec<Address>),
    Expiration(u64),
    Memo(Vec<u8>),
    Finality(bool),
    Threshold(u64),
}

impl View for Field {
    type V = FieldView;

    open spec fn view(&self) -> FieldView {
        match self {
            Field::From(a) => FieldView::From(a@),
            Field::To(t) => FieldView::To(addresses_view(t@)),
            Field::Expiration(e) => FieldView::Expiration(*e),
            Field::Memo(m) => FieldView::Memo(m@),
            Field::Finality(b) => FieldView::Finality(*b),
            Field::Threshold(t) => FieldView::Threshold(*t),
        }
    }
}

/// The fields read so far.
pub struct Fields {
    pub from: Option<Address>,
    pub to: Option<Vec<Address>>,
    pub expiration: Option<u64>,
    pub memo: Option<Vec<u8>>,
    pub finality: Option<bool>,
    pub threshold: Option<u64>,
}

impl View for Fields {
    type V = FieldsView;

    open spec fn view(&self) -> FieldsView {
        FieldsView {
            from: match self.from {
                Some(a) => Some(a@),
                None => None,
            },
            to: match self.to {
                Some(t) => Some(addresses_view(t@)),
                None => None,
            },
            expiration: self.expiration,
            memo: match self.memo {
                Some(m) => Some(m@),
                None => None,
            },
            finality: self.finality,
            threshold: self.threshold,
        }
    }
}

fn set_entry(fields: &mut Fields, f: Field)
    ensures
        final(fields)@ == set_field(old(fields)@, f@),
{
    match f {
        Field::From(a) => fields.from = Some(a),
        Field::To(t) => fields.to = Some(t),
        Field::Expiration(e) => fields.expiration = Some(e),
        Field::Memo(m) => fields.memo = Some(m),
        Field::Finality(b) => fields.finality = Some(b),
        Field::Threshold(t) => fields.threshold = Some(t),
    }
}

fn read_entry(s: &[u8], pos: usize) -> (r: Option<(Field, usize)>)
    ensures
        match r {
            Some((f, q)) => parse_entry(s@, pos as int) == Some((f@, q as int)),
            None => parse_entry(s@, pos as int) is None,
        },
{
    let (k, p) = match read_uint(s, pos) {
        Some(x) => x,
        None => {
            return None;
        },
    };
    if k == 0 {
        match read_address(s, p) {
            Some((a, q)) => Some((Field::From(a), q)),
            None => None,
        }
    } else if k == 1 {
        match read_to(s, p) {
            Some((t, q)) => Some((Field::To(t), q)),
            None => None,
        }
    } else if k == 2 {
        match read_time(s, p) {
            Some((e, q)) => Some((Field::Expiration(e), q)),
            None => None,
        }
    } else if k == 3 {
        match read_bstr(s, p) {
            Some((m, q)) => Some((Field::Memo(m), q)),
            None => None,
        }
    } else if k == 4 {
        match read_bool(s, p) {
            Some((b, q)) => Some((Field::Finality(b), q)),
            None => None,
        }
    } else if k == 5 {
        match read_uint(s, p) {
            Some((t, q)) => Some((Field::Threshold(t), q)),
            None => None,
        }
    } else {
        None
    }
}

fn read_entries(s: &[u8], pos: usize, n: u64) -> (r: Option<(Fields, usize)>)
    ensures
        match r {
            Some((f, e)) => parse_entries(s@, pos as int, n as nat, no_fields()) == Some((f@, e as int)),
            None => parse_entries(s@, pos as int, n as nat, no_fields()) is None,
        },
{
    let mut fields = Fields { from: None, to: None, expiration: None, memo: None, finality: None, threshold: None };
    assert(fields@ == no_fields());
    let mut cur: usize = pos;
    let mut k: u64 = 0;
    while k < n
        invariant
            k <= n,
            parse_entries(s@, pos as int, n as nat, no_fields()) == parse_entries(
                s@,
                cur as int,
                (n - k) as nat,
                fields@,
            ),
        decreases n - k,
    {
        match read_entry(s, cur) {
            Some((f, q)) => {
                set_entry(&mut fields, f);
                cur = q;
            },
            None => {
                return None;
            },
        }
        k = k + 1;
    }
    Some((fields, cur))
}

fn read_entries_indefinite(s: &[u8], pos: usize) -> (r: Option<(Fields, usize)>)
    ensures
        match r {
            Some((f, e)) => parse_entries_indefinite(s@, pos as int, no_fields()) == Some((f@, e as int)),
            None => parse_entries_indefinite(s@, pos as int, no_fields()) is None,
        },
{
    let mut fields = Fields { from: None, to: None, expiration: None, memo: None, finality: None, threshold: None };
    assert(fields@ == no_fields());
    let mut cur: usize = pos;
    loop
        invariant
            parse_entries_indefinite(s@, pos as int, no_fields()) == parse_entries_indefinite(
                s@,
                cur as int,
                fields@,
            ),
        decreases s@.len() - cur,
    {
        if cur >= s.len() {
            return None;
        }
        if s[cur] == BREAK {
            return Some((fields, cur + 1));
        }
        match read_entry(s, cur) {
            Some((f, q)) => {
                if q <= cur || q > s.len() {
                    return None;
                }
                set_entry(&mut fields, f);
                cur = q;
            },
            None => {
                return None;
            },
        }
    }
}

fn write_time(out: &mut Vec<u8>, t: u64)
    ensures
        final(out)@ == old(out)@ + time_item(t),
{
    write_head(out, 6, TIME_TAG);
    write_head(out, 0, t);
    assert(final(out)@ =~= old(out)@ + time_item(t));
}

proof fn lemma_certificate_bytes_pieces(c: CertificateView)
    ensures
        certificate_bytes(c) =~= Seq::<u8>::empty() + head(5, (3 + optional_count(c)) as u64) + uint(0)
            + address_item(c.from) + uint(1) + to_item(c.to) + uint(2) + time_item(c.expiration) + (
        memo_entry(c.memo) + (final_entry(c.finality) + threshold_entry(c.threshold))),
{
}

fn write_optionals(out: &mut Vec<u8>, c: &Certificate)
    ensures
        final(out)@ == old(out)@ + (memo_entry(c@.memo) + (final_entry(c@.finality) + threshold_entry(
            c@.threshold,
        ))),
{
    match &c.memo {
        Some(m) => {
            write_head(out, 0, 3);
            write_bstr(out, m.as_slice());
        },
        None => {},
    }
    let ghost with_memo = out@;
    match c.finality {
        Some(b) => {
            write_head(out, 0, 4);
            write_head(out, 7, if b { 21 } else { 20 });
        },
        None => {},
    }
    assert(out@ =~= with_memo + final_entry(c@.finality));
    let ghost with_final = out@;
    match c.threshold {
        Some(t) => {
            write_head(out, 0, 5);
            write_head(out, 0, t);
        },
        None => {},
    }
    assert(out@ =~= with_final + threshold_entry(c@.threshold));
    assert(final(out)@ =~= old(out)@ + (memo_entry(c@.memo) + (final_entry(c@.finality)
        + threshold_entry(c@.threshold))));
}

impl Certificate {
    /// A certificate from `from` to `to` until `expiration`, with no memo, not
    /// final, and no threshold.
    pub fn new(from: Address, to: Vec<Address>, expiration: Timestamp) -> (r: Certificate)
        ensures
            r.from == from,
            r.to == to,
            r.expiration == expiration,
            r.memo is None,
            r.finality is None,
            r.threshold is None,
    {
        Certificate { from, to, expiration, memo: None, finality: None, threshold: None }
    }

    pub fn with_threshold(self, t: u64) -> (r: Certificate)
        ensures
            r@ == (CertificateView { threshold: Some(t), ..self@ }),
    {
        Certificate { threshold: Some(t), ..self }
    }

    /// Marks the certificate final, or clears the mark.
    pub fn with_final(self, v: bool) -> (r: Certificate)
        ensures
            r@ == (CertificateView { finality: if v { Some(true) } else { None }, ..self@ }),
    {
        Certificate { finality: if v { Some(true) } else { None }, ..self }
    }

    pub fn is_final(&self) -> (r: bool)
        ensures
            r == spec_is_final(self@),
    {
        match self.finality {
            Some(b) => b,
            None => false,
        }
    }

    /// The encoding of the certificate.
    pub fn encode(&self) -> (r: Vec<u8>)
        ensures
            r@ == certificate_bytes(self@),
    {
        let count: u64 = 3 + (if self.memo.is_some() { 1 } else { 0 }) + (if self.finality.is_some() {
            1
        } else {
            0
        }) + (if self.threshold.is_some() { 1 } else { 0 });
        let mut out: Vec<u8> = Vec::new();
        write_head(&mut out, 5, count);
        write_head(&mut out, 0, 0);
        write_address(&mut out, &self.from);
        write_head(&mut out, 0, 1);
        write_to(&mut out, &self.to);
        write_head(&mut out, 0, 2);
        write_time(&mut out, self.expiration);
        write_optionals(&mut out, self);
        proof {
            lemma_certificate_bytes_pieces(self@);
        }
        assert(out@ =~= certificate_bytes(self@));
        out
    }

    /// Reads a certificate that `bytes` encode, with nothing after it. The map
    /// may have definite or indefinite length, and its entries may come in any
    /// order; a repeated key counts as its last entry.
    pub fn decode(bytes: &[u8]) -> (r: Option<Certificate>)
        ensures
            match r {
                Some(x) => decode_certificate(bytes@) == Some(x@),
                None => decode_certificate(bytes@) is None,
            },
    {
        let read = if bytes.len() > 0 && bytes[0] == INDEFINITE_MAP {
            read_entries_indefinite(bytes, 1)
        } else {
            match read_head(bytes, 0) {
                Some((m, n, p)) => if m == 5 {
                    read_entries(bytes, p, n)
                } else {
                    return None;
                },
                None => {
                    return None;
                },
            }
        };
        let (fields, end) = match read {
            Some(x) => x,
            None => {
                return None;
            },
        };
        if end != bytes.len() {
            return None;
        }
        let Fields { from, to, expiration, memo, finality, threshold } = fields;
        match (from, to, expiration) {
            (Some(from), Some(to), Some(expiration)) => Some(
                Certificate { from, to, expiration, memo, finality, threshold },
            ),
            _ => None,
        }
    }
}


/// The envelope that signing starts from: the payload alone.
pub open spec fn unsigned_envelope(payload: Seq<u8>) -> EnvelopeView {
    EnvelopeView { key_id: Seq::empty(), payload: Some(payload), signature: Seq::empty() }
}

/// What checking an envelope as link of a delegation chain yields, given what the
/// verifier made of it. The checks come in order: signature, payload, encoding,
/// signer against `from`, expiration (strictly after `now`), finality.
pub open spec fn decode_and_verify_outcome(
    verified: Result<Seq<u8>, ErrorView>,
    payload: Option<Seq<u8>>,
    now: u64,
    is_last: bool,
) -> Result<CertificateView, ErrorView> {
    match verified {
        Err(e) => Err(e),
        Ok(signer) => match payload {
            None => Err((ErrorKind::Unknown, "Empty envelope."@)),
            Some(p) => match decode_certificate(p) {
                None => Err((ErrorKind::DeserializationError, "Invalid certificate."@)),
                Some(c) => if !same_principal(c.from, signer) {
                    Err((ErrorKind::IdentityMismatch, "From does not match identity."@))
                } else if c.expiration <= now {
                    Err((ErrorKind::CertificateExpired, "Delegation certificate expired."@))
                } else if spec_is_final(c) && !is_last {
                    Err((ErrorKind::CertificateFinalNotLast, "Delegation certificate is final."@))
                } else {
                    Ok(c)
                },
            },
        },
    }
}

/// Every certificate value is well formed.
pub proof fn lemma_certificate_wf(c: &Certificate)
    ensures
        certificate_wf(c@),
{
    lemma_pow256_values();
    assert(c.from@.len() == 32);
    assert(c.to.len() == c.to@.len());
    if let Some(m) = &c.memo {
        assert(m.len() == m@.len());
    }
    assert(c@.to.len() == c.to@.len());
    assert forall|i: int| 0 <= i < c@.to.len() implies #[trigger] c@.to[i].len() == 32 by {
        assert(c@.to[i] == c.to@[i]@);
    }
}

impl Certificate {
    /// Signs the certificate with `id`. Fails unless `id`'s address names the
    /// certificate's `from`.
    pub fn sign<I: Identity>(&self, id: &I) -> (r: Result<Envelope, ManyError>)
        ensures
            !same_principal(self.from@, id.spec_address()) ==> (r matches Err(e) && e@ == (
                ErrorKind::IdentityMismatch,
                "From does not match identity."@,
            )),
            same_principal(self.from@, id.spec_address()) ==> id.signs(
                unsigned_envelope(certificate_bytes(self@)),
                envelope_result(r),
            ),
    {
        let address = id.address();
        if !self.from.matches(&address) {
            return Err(ManyError::new(ErrorKind::IdentityMismatch, "From does not match identity."));
        }
        let envelope = Envelope::with_payload(self.encode());
        id.sign_1(envelope)
    }

    /// Checks one link of a delegation chain: verifies the envelope, reads the
    /// certificate from its payload, and checks it against the signer, `now`, and
    /// whether it is the last link.
    pub fn decode_and_verify<V: Verifier>(
        envelope: &Envelope,
        verifier: &V,
        now: Timestamp,
        is_last: bool,
    ) -> (r: Result<Certificate, ManyError>)
        ensures
            certificate_result(r) == decode_and_verify_outcome(
                verifier.outcome(envelope@),
                envelope@.payload,
                now,
                is_last,
            ),
            r matches Ok(c) ==> now < c.expiration && (c.is_final_spec() ==> is_last),
    {
        let from = match verifier.verify_1(envelope) {
            Ok(a) => a,
            Err(e) => {
                return Err(e);
            },
        };
        let payload = match &envelope.payload {
            Some(p) => p,
            None => {
                return Err(ManyError::unknown("Empty envelope."));
            },
        };
        let certificate = match Certificate::decode(payload.as_slice()) {
            Some(c) => c,
            None => {
                return Err(ManyError::new(ErrorKind::DeserializationError, "Invalid certificate."));
            },
        };
        if !certificate.from.matches(&from) {
            return Err(ManyError::new(ErrorKind::IdentityMismatch, "From does not match identity."));
        }
        if certificate.expiration <= now {
            return Err(ManyError::new(ErrorKind::CertificateExpired, "Delegation certificate expired."));
        }
        if certificate.is_final() && !is_last {
            return Err(ManyError::new(ErrorKind::CertificateFinalNotLast, "Delegation certificate is final."));
        }
        Ok(certificate)
    }

    pub open spec fn is_final_spec(&self) -> bool {
        spec_is_final(self@)
    }
}

/// Certificate round trip: a certificate whose `from` is the signer's principal,
/// signed by that identity, and checked by a verifier that resolves the signer's
/// principal, before its expiration (and, if final, as the last link), decodes
/// back to the same certificate.
pub proof fn lemma_certificate_round_trip<I: Identity, V: Verifier>(
    c: &Certificate,
    id: I,
    verifier: V,
    signed: EnvelopeView,
    now: u64,
    is_last: bool,
)
    requires
        same_principal(c@.from, id.spec_address()),
        id.signs(unsigned_envelope(certificate_bytes(c@)), Ok(signed)),
        verifier.outcome(signed) matches Ok(a) && same_principal(a, id.spec_address()),
        now < c.expiration,
        spec_is_final(c@) ==> is_last,
    ensures
        decode_and_verify_outcome(verifier.outcome(signed), signed.payload, now, is_last) == Ok::<
            CertificateView,
            ErrorView,
        >(c@),
{
    id.lemma_signing_keeps_payload(unsigned_envelope(certificate_bytes(c@)), signed);
    lemma_certificate_wf(c);
    lemma_decode_certificate_bytes(c@);
}

/// Expiration boundary: a certificate that expires at `now` is rejected as
/// expired, however it passes the checks before.
pub proof fn lemma_expiration_boundary(signer: Seq<u8>, payload: Seq<u8>, now: u64, is_last: bool)
    requires
        decode_certificate(payload) matches Some(c) && same_principal(c.from, signer) && c.expiration
            == now,
    ensures
        decode_and_verify_outcome(Ok(signer), Some(payload), now, is_last)->Err_0.0
            == ErrorKind::CertificateExpired,
        decode_and_verify_outcome(Ok(signer), Some(payload), now, is_last) is Err,
{
}

/// Final flag: a final certificate that passes the other checks is rejected when
/// it is not the last link and accepted when it is.
pub proof fn lemma_final_flag(signer: Seq<u8>, payload: Seq<u8>, now: u64)
    requires
        decode_certificate(payload) matches Some(c) && same_principal(c.from, signer) && now
            < c.expiration && spec_is_final(c),
    ensures
        decode_and_verify_outcome(Ok(signer), Some(payload), now, false) is Err,
        decode_and_verify_outcome(Ok(signer), Some(payload), now, false)->Err_0.0
            == ErrorKind::CertificateFinalNotLast,
        decode_and_verify_outcome(Ok(signer), Some(payload), now, true) == Ok::<
            CertificateView,
            ErrorView,
        >(decode_certificate(payload)->Some_0),
{
}

/// From mismatch, on the checking side: a certificate whose `from` does not name
/// the principal that signed it is rejected, whatever its other fields.
pub proof fn lemma_from_mismatch(signer: Seq<u8>, payload: Seq<u8>, now: u64, is_last: bool)
    requires
        decode_certificate(payload) matches Some(c) && !same_principal(c.from, signer),
    ensures
        decode_and_verify_outcome(Ok(signer), Some(payload), now, is_last) is Err,
        decode_and_verify_outcome(Ok(signer), Some(payload), now, is_last)->Err_0.0
            == ErrorKind::IdentityMismatch,
{
}


/// Each link after the first is signed for by an address the link before delegated to.
pub open spec fn links_to(prev: CertificateView, next: CertificateView) -> bool {
    prev.to.contains(next.from)
}

/// What checking the first `k` links of a chain yields: the certificates, or the
/// first failure. Only the chain's last link may be final.
pub open spec fn chain_prefix<V: Verifier>(verifier: V, envelopes: Seq<EnvelopeView>, now: u64, k: nat) -> Result<
    Seq<CertificateView>,
    ErrorView,
>
    decreases k,
{
    if k == 0 {
        Ok(Seq::empty())
    } else {
        match chain_prefix(verifier, envelopes, now, (k - 1) as nat) {
            Err(e) => Err(e),
            Ok(cs) => {
                let e = envelopes[k - 1];
                match decode_and_verify_outcome(verifier.outcome(e), e.payload, now, k == envelopes.len()) {
                    Err(err) => Err(err),
                    Ok(c) => if k >= 2 && !links_to(cs.last(), c) {
                        Err((ErrorKind::IdentityMismatch, "Delegation chain is broken."@))
                    } else {
                        Ok(cs.push(c))
                    },
                }
            },
        }
    }
}

proof fn lemma_chain_error_sticks<V: Verifier>(
    verifier: V,
    envelopes: Seq<EnvelopeView>,
    now: u64,
    k: nat,
    n: nat,
)
    requires
        k <= n,
        chain_prefix(verifier, envelopes, now, k) is Err,
    ensures
        chain_prefix(verifier, envelopes, now, n) == chain_prefix(verifier, envelopes, now, k),
    decreases n,
{
    if k < n {
        lemma_chain_error_sticks(verifier, envelopes, now, k, (n - 1) as nat);
    }
}

pub open spec fn certificates_view(v: Seq<Certificate>) -> Seq<CertificateView> {
    v.map_values(|c: Certificate| c@)
}

fn same_address(a: &Address, b: &Address) -> (r: bool)
    ensures
        r == (a@ == b@),
{
    let mut i: usize = 0;
    while i < 32
        invariant
            i <= 32,
            a@.len() == 32,
            b@.len() == 32,
            forall|j: int| 0 <= j < i ==> a@[j] == b@[j],
        decreases 32 - i,
    {
        if a.bytes[i] != b.bytes[i] {
            return false;
        }
        i = i + 1;
    }
    assert(a@ =~= b@);
    true
}

fn contains_address(v: &Vec<Address>, a: &Address) -> (r: bool)
    ensures
        r == addresses_view(v@).contains(a@),
{
    let mut i: usize = 0;
    while i < v.len()
        invariant
            i <= v@.len(),
            forall|j: int| 0 <= j < i ==> v@[j]@ != a@,
        decreases v@.len() - i,
    {
        if same_address(&v[i], a) {
            assert(addresses_view(v@)[i as int] == a@);
            return true;
        }
        i = i + 1;
    }
    assert forall|j: int| 0 <= j < addresses_view(v@).len() implies addresses_view(v@)[j] != a@ by {
        assert(addresses_view(v@)[j] == v@[j]@);
    }
    false
}

/// Checks a delegation chain link by link, in order: each certificate as in
/// `decode_and_verify`, with only the last allowed to be final, and each after the
/// first delegated to by the one before. The effective principals are the `to`
/// of the last certificate.
#[verifier::rlimit(50)]
pub fn decode_chain<V: Verifier>(envelopes: &Vec<Envelope>, verifier: &V, now: Timestamp) -> (r: Result<
    Vec<Certificate>,
    ManyError,
>)
    ensures
        match r {
            Ok(cs) => chain_prefix(
                *verifier,
                envelopes@.map_values(|e: Envelope| e@),
                now,
                envelopes@.len(),
            ) == Ok::<Seq<CertificateView>, ErrorView>(certificates_view(cs@)),
            Err(e) => chain_prefix(*verifier, envelopes@.map_values(|e: Envelope| e@), now, envelopes@.len())
                == Err::<Seq<CertificateView>, ErrorView>(e@),
        },
{
    let ghost envs = envelopes@.map_values(|e: Envelope| e@);
    let mut certificates: Vec<Certificate> = Vec::new();
    let mut i: usize = 0;
    assert(certificates_view(certificates@) =~= Seq::<CertificateView>::empty());
    while i < envelopes.len()
        invariant
            i <= envelopes@.len(),
            envs == envelopes@.map_values(|e: Envelope| e@),
            certificates@.len() == i,
            chain_prefix(*verifier, envs, now, i as nat) == Ok::<Seq<CertificateView>, ErrorView>(
                certificates_view(certificates@),
            ),
        decreases envelopes@.len() - i,
    {
        assert(envs[i as int] == envelopes@[i as int]@);
        let is_last = i + 1 == envelopes.len();
        let c = match Certificate::decode_and_verify(&envelopes[i], verifier, now, is_last) {
            Ok(c) => c,
            Err(e) => {
                proof {
                    lemma_chain_error_sticks(*verifier, envs, now, (i + 1) as nat, envelopes@.len());
                }
                return Err(e);
            },
        };
        if i >= 1 {
            let linked = contains_address(&certificates[i - 1].to, &c.from);
            assert(certificates_view(certificates@).last() == certificates@[i - 1]@);
            if !linked {
                let err = ManyError::new(ErrorKind::IdentityMismatch, "Delegation chain is broken.");
                proof {
                    lemma_chain_error_sticks(*verifier, envs, now, (i + 1) as nat, envelopes@.len());
                }
                return Err(err);
            }
        }
        let ghost before = certificates_view(certificates@);
        certificates.push(c);
        assert(certificates_view(certificates@) =~= before.push(c@));
        i = i + 1;
    }
    Ok(certificates)
}

impl Certificate {
    /// How many signatures the certificate asks for: 1 where none is given; none
    /// at all where it asks for 0, which makes it invalid.
    pub fn effective_threshold(&self) -> (r: Option<u64>)
        ensures
            r == match self.threshold {
                None => Some(1u64),
                Some(t) => if t == 0 { None } else { Some(t) },
            },
    {
        match self.threshold {
            None => Some(1),
            Some(t) => if t == 0 {
                None
            } else {
                Some(t)
            },
        }
    }
}

} // verus!
