//! Typed write-back references over the Merkle key-value store, and the records
//! the execution host keeps there.
use crate::address::Address;
use crate::cbor::{
    bstr, head, holds_at, lemma_bstr_round_trip, lemma_head_round_trip, lemma_holds_split,
    lemma_pow256_values, parse_bstr, parse_head, pow256, read_bstr, read_head, write_bstr, write_head,
};
use crate::delegation::{address_item, parse_address, read_address, write_address};
use crate::error::{ErrorKind, ManyError};
use vstd::prelude::*;

verus! {

/// A value kept in the store under its canonical binary encoding.
pub trait Record: View + Sized {
    spec fn encoding(v: Self::V) -> Seq<u8>;

    spec fn decoding(bytes: Seq<u8>) -> Option<Self::V>;

    /// What every value of the type satisfies.
    spec fn value_wf(v: Self::V) -> bool;

    proof fn lemma_value_wf(&self)
        ensures
            Self::value_wf(self@),
    ;

    /// Encodings read back.
    proof fn lemma_decode_encode(v: Self::V)
        requires
            Self::value_wf(v),
        ensures
            Self::decoding(Self::encoding(v)) == Some(v),
    ;

    fn encode(&self) -> (r: Vec<u8>)
        ensures
            r@ == Self::encoding(self@),
    ;

    fn decode(bytes: &[u8]) -> (r: Option<Self>)
        ensures
            match r {
                Some(x) => Self::decoding(bytes@) == Some(x@),
                None => Self::decoding(bytes@) is None,
            },
    ;
}

/// The store as a map from keys to bytes.
pub type StoreView = Map<Seq<u8>, Seq<u8>>;

/// A write to the store: put these bytes under this key.
pub type Put = (Vec<u8>, Vec<u8>);

/// The store after a release applied the write it asked for, if any.
pub open spec fn apply_put(store: StoreView, put: Option<(Seq<u8>, Seq<u8>)>) -> StoreView {
    match put {
        Some((k, v)) => store.insert(k, v),
        None => store,
    }
}

pub open spec fn put_view(p: Option<Put>) -> Option<(Seq<u8>, Seq<u8>)> {
    match p {
        Some((k, v)) => Some((k@, v@)),
        None => None,
    }
}

pub struct StorageRefView<V> {
    pub key: Seq<u8>,
    pub dirty: bool,
    pub value: V,
}

/// A value read from (or bound for) the store under `key`. Changing it marks it
/// dirty; releasing a dirty reference yields the one write that stores its value.
pub struct StorageRef<T> {
    key: Vec<u8>,
    dirty: bool,
    inner: T,
}

impl<T: View> View for StorageRef<T> {
    type V = StorageRefView<T::V>;

    closed spec fn view(&self) -> StorageRefView<T::V> {
        StorageRefView { key: self.key@, dirty: self.dirty, value: self.inner@ }
    }
}

impl<T: Record> StorageRef<T> {
    /// A reference to a new value: dirty, so that it is written on release even
    /// if never changed.
    pub fn new(key: Vec<u8>, inner: T) -> (r: StorageRef<T>)
        ensures
            r@ == (StorageRefView { key: key@, dirty: true, value: inner@ }),
    {
        StorageRef { key, dirty: true, inner }
    }

    /// A reference to what the store holds under `key`, given the bytes it holds
    /// there: absent where it holds none, clean where it holds a value, and an
    /// error where the bytes do not decode.
    pub fn load(key: Vec<u8>, stored: Option<Vec<u8>>) -> (r: Result<Option<StorageRef<T>>, ManyError>)
        ensures
            stored is None ==> r == Ok::<Option<StorageRef<T>>, ManyError>(None),
            stored matches Some(b) ==> match T::decoding(b@) {
                Some(v) => r matches Ok(Some(x)) && x@ == (StorageRefView { key: key@, dirty: false, value: v }),
                None => r matches Err(e) && e.kind == ErrorKind::DeserializationError,
            },
    {
        match stored {
            Some(bytes) => match T::decode(bytes.as_slice()) {
                Some(inner) => Ok(Some(StorageRef { key, dirty: false, inner })),
                None => Err(ManyError::new(ErrorKind::DeserializationError, "Stored value does not decode.")),
            },
            None => Ok(None),
        }
    }

    /// Read access; leaves the reference as it is.
    pub fn get(&self) -> (r: &T)
        ensures
            r@ == self@.value,
    {
        &self.inner
    }

    /// Write access; marks the reference dirty.
    pub fn get_mut(&mut self) -> (r: &mut T)
        ensures
            r@ == old(self)@.value,
            final(self)@ == (StorageRefView { key: old(self)@.key, dirty: true, value: final(r)@ }),
    {
        self.dirty = true;
        &mut self.inner
    }

    pub fn is_dirty(&self) -> (r: bool)
        ensures
            r == self@.dirty,
    {
        self.dirty
    }

    /// Ends the reference: the write that stores its value where it is dirty,
    /// nothing where it is clean.
    pub fn release(self) -> (r: Option<Put>)
        ensures
            put_view(r) == release_put::<T>(self@),
    {
        if self.dirty {
            let bytes = self.inner.encode();
            Some((self.key, bytes))
        } else {
            None
        }
    }
}

/// The write that releasing a reference yields.
pub open spec fn release_put<T: Record>(r: StorageRefView<T::V>) -> Option<(Seq<u8>, Seq<u8>)> {
    if r.dirty {
        Some((r.key, T::encoding(r.value)))
    } else {
        None
    }
}

/// Write-back: once a reference is released and its write applied, a dirty
/// reference's key reads back as its final value and no other key changes; a
/// clean reference leaves the store as it was.
pub proof fn lemma_write_back<T: Record>(store: StoreView, r: &StorageRef<T>)
    ensures
        r@.dirty ==> T::decoding(apply_put(store, release_put::<T>(r@))[r@.key]) == Some(r@.value),
        apply_put(store, release_put::<T>(r@)).remove(r@.key) == store.remove(r@.key),
        !r@.dirty ==> apply_put(store, release_put::<T>(r@)) == store,
{
    r.inner.lemma_value_wf();
    T::lemma_decode_encode(r@.value);
    if r@.dirty {
        assert(apply_put(store, release_put::<T>(r@)).remove(r@.key) =~= store.remove(r@.key));
    }
}

// ---- module info ----

/// The key of a module's info: `"module_info/"` followed by its address.
pub open spec fn module_info_key(address: Seq<u8>) -> Seq<u8> {
    seq![109u8, 111u8, 100u8, 117u8, 108u8, 101u8, 95u8, 105u8, 110u8, 102u8, 111u8, 47u8] + address
}

pub fn key_for_module_info(address: Address) -> (r: Vec<u8>)
    ensures
        r@ == module_info_key(address@),
{
    let mut r: Vec<u8> = vec![109u8, 111u8, 100u8, 117u8, 108u8, 101u8, 95u8, 105u8, 110u8, 102u8, 111u8, 47u8];
    let a = address.to_vec();
    let ghost start = r@;
    let mut i: usize = 0;
    while i < a.len()
        invariant
            i <= a@.len(),
            r@ == start + a@.subrange(0, i as int),
        decreases a@.len() - i,
    {
        r.push(a[i]);
        i = i + 1;
        assert(r@ =~= start + a@.subrange(0, i as int));
    }
    assert(a@.subrange(0, a@.len() as int) =~= a@);
    assert(r@ =~= module_info_key(address@));
    r
}

pub struct ModuleInfoView {
    pub version: u64,
    pub address: Seq<u8>,
    pub module: Seq<u8>,
    pub memory: Seq<u8>,
}

/// What the store keeps of an installed contract: a version, its address, and the
/// paths of its bytecode and of its memory snapshot.
#[derive(Debug, PartialEq, Eq)]
pub struct ModuleInfo {
    pub version: u64,
    pub address: Address,
    pub module: Vec<u8>,
    pub memory: Vec<u8>,
}

impl View for ModuleInfo {
    type V = ModuleInfoView;

    open spec fn view(&self) -> ModuleInfoView {
        ModuleInfoView { version: self.version, address: self.address@, module: self.module@, memory: self.memory@ }
    }
}

pub open spec fn module_info_wf(m: ModuleInfoView) -> bool {
    m.address.len() == 32 && m.module.len() < pow256(8) && m.memory.len() < pow256(8)
}

/// The encoding of a module info: a CBOR map with keys 0 to 3.
pub open spec fn module_info_bytes(m: ModuleInfoView) -> Seq<u8> {
    head(5, 4) + (head(0, 0) + (head(0, m.version) + (head(0, 1) + (address_item(m.address) + (head(0, 2)
        + (bstr(m.module) + (head(0, 3) + bstr(m.memory))))))))
}

pub open spec fn parse_keyed_uint(s: Seq<u8>, pos: int, key: u64) -> Option<(u64, int)> {
    match parse_head(s, pos) {
        Some((m, k, p)) => if m == 0 && k == key {
            match parse_head(s, p) {
                Some((m2, v, q)) => if m2 == 0 {
                    Some((v, q))
                } else {
                    None
                },
                None => None,
            }
        } else {
            None
        },
        None => None,
    }
}

pub open spec fn parse_keyed_bstr(s: Seq<u8>, pos: int, key: u64) -> Option<(Seq<u8>, int)> {
    match parse_head(s, pos) {
        Some((m, k, p)) => if m == 0 && k == key {
            parse_bstr(s, p)
        } else {
            None
        },
        None => None,
    }
}

pub open spec fn parse_keyed_address(s: Seq<u8>, pos: int, key: u64) -> Option<(Seq<u8>, int)> {
    match parse_head(s, pos) {
        Some((m, k, p)) => if m == 0 && k == key {
            parse_address(s, p)
        } else {
            None
        },
        None => None,
    }
}

pub open spec fn decode_module_info(s: Seq<u8>) -> Option<ModuleInfoView> {
    match parse_head(s, 0) {
        Some((m, n, p0)) => if m == 5 && n == 4 {
            match parse_keyed_uint(s, p0, 0) {
                Some((version, p1)) => match parse_keyed_address(s, p1, 1) {
                    Some((address, p2)) => match parse_keyed_bstr(s, p2, 2) {
                        Some((module, p3)) => match parse_keyed_bstr(s, p3, 3) {
                            Some((memory, p4)) => if p4 == s.len() {
                                Some(ModuleInfoView { version, address, module, memory })
                            } else {
                                None
                            },
                            None => None,
                        },
                        None => None,
                    },
                    None => None,
                },
                None => None,
            }
        } else {
            None
        },
        None => None,
    }
}

fn read_keyed_head(s: &[u8], pos: usize, key: u64) -> (r: Option<usize>)
    ensures
        match r {
            Some(p) => parse_head(s@, pos as int) == Some((0u8, key, p as int)),
            None => !(parse_head(s@, pos as int) matches Some((m, k, _)) && m == 0 && k == key),
        },
{
    match read_head(s, pos) {
        Some((m, k, p)) => if m == 0 && k == key {
            Some(p)
        } else {
            None
        },
        None => None,
    }
}

impl ModuleInfo {
    /// The info of a freshly installed module: version 0.
    pub fn new(address: Address, module: Vec<u8>, memory: Vec<u8>) -> (r: ModuleInfo)
        ensures
            r.version == 0,
            r.address == address,
            r.module == module,
            r.memory == memory,
    {
        ModuleInfo { version: 0, address, module, memory }
    }
}

impl Record for ModuleInfo {
    open spec fn encoding(v: ModuleInfoView) -> Seq<u8> {
        module_info_bytes(v)
    }

    open spec fn decoding(bytes: Seq<u8>) -> Option<ModuleInfoView> {
        decode_module_info(bytes)
    }

    open spec fn value_wf(v: ModuleInfoView) -> bool {
        module_info_wf(v)
    }

    proof fn lemma_value_wf(&self) {
        lemma_module_info_wf(self);
    }

    proof fn lemma_decode_encode(v: ModuleInfoView) {
        lemma_module_info_round_trip(v);
    }

    fn encode(&self) -> (r: Vec<u8>) {
        let mut out: Vec<u8> = Vec::new();
        write_head(&mut out, 5, 4);
        write_head(&mut out, 0, 0);
        write_head(&mut out, 0, self.version);
        write_head(&mut out, 0, 1);
        write_address(&mut out, &self.address);
        write_head(&mut out, 0, 2);
        write_bstr(&mut out, self.module.as_slice());
        write_head(&mut out, 0, 3);
        write_bstr(&mut out, self.memory.as_slice());
        assert(out@ =~= module_info_bytes(self@));
        out
    }

    fn decode(bytes: &[u8]) -> (r: Option<ModuleInfo>) {
        let p0 = match read_head(bytes, 0) {
            Some((m, n, p)) => if m == 5 && n == 4 {
                p
            } else {
                return None;
            },
            None => {
                return None;
            },
        };
        let p1 = match read_keyed_head(bytes, p0, 0) {
            Some(p) => p,
            None => {
                return None;
            },
        };
        let (version, p2) = match read_head(bytes, p1) {
            Some((m, v, q)) => if m == 0 {
                (v, q)
            } else {
                return None;
            },
            None => {
                return None;
            },
        };
        let p3 = match read_keyed_head(bytes, p2, 1) {
            Some(p) => p,
            None => {
                return None;
            },
        };
        let (address, p4) = match read_address(bytes, p3) {
            Some(x) => x,
            None => {
                return None;
            },
        };
        let p5 = match read_keyed_head(bytes, p4, 2) {
            Some(p) => p,
            None => {
                return None;
            },
        };
        let (module, p6) = match read_bstr(bytes, p5) {
            Some(x) => x,
            None => {
                return None;
            },
        };
        let p7 = match read_keyed_head(bytes, p6, 3) {
            Some(p) => p,
            None => {
                return None;
            },
        };
        let (memory, p8) = match read_bstr(bytes, p7) {
            Some(x) => x,
            None => {
                return None;
            },
        };
        if p8 != bytes.len() {
            return None;
        }
        Some(ModuleInfo { version, address, module, memory })
    }
}

/// Every module info value is well formed.
pub proof fn lemma_module_info_wf(m: &ModuleInfo)
    ensures
        module_info_wf(m@),
{
    lemma_pow256_values();
    assert(m.module.len() == m.module@.len());
    assert(m.memory.len() == m.memory@.len());
}

/// A well-formed module info decodes back from its encoding.
pub proof fn lemma_module_info_round_trip(m: ModuleInfoView)
    requires
        module_info_wf(m),
    ensures
        decode_module_info(module_info_bytes(m)) == Some(m),
{
    lemma_pow256_values();
    let s = module_info_bytes(m);
    assert(s.subrange(0, s.len() as int) =~= s);
    let b0 = head(5, 4);
    let b1 = head(0, 0);
    let b2 = head(0, m.version);
    let b3 = head(0, 1);
    let b4 = address_item(m.address);
    let b5 = head(0, 2);
    let b6 = bstr(m.module);
    let b7 = head(0, 3);
    let b8 = bstr(m.memory);
    let p1 = b0.len() as int;
    let p2 = p1 + b1.len();
    let p3 = p2 + b2.len();
    let p4 = p3 + b3.len();
    let p5 = p4 + b4.len();
    let p6 = p5 + b5.len();
    let p7 = p6 + b6.len();
    let p8 = p7 + b7.len();
    lemma_holds_split(s, 0, b0, b1 + (b2 + (b3 + (b4 + (b5 + (b6 + (b7 + b8)))))));
    lemma_holds_split(s, p1, b1, b2 + (b3 + (b4 + (b5 + (b6 + (b7 + b8))))));
    lemma_holds_split(s, p2, b2, b3 + (b4 + (b5 + (b6 + (b7 + b8)))));
    lemma_holds_split(s, p3, b3, b4 + (b5 + (b6 + (b7 + b8))));
    lemma_holds_split(s, p4, b4, b5 + (b6 + (b7 + b8)));
    lemma_holds_split(s, p5, b5, b6 + (b7 + b8));
    lemma_holds_split(s, p6, b6, b7 + b8);
    lemma_holds_split(s, p7, b7, b8);
    lemma_head_round_trip(s, 0, 5, 4);
    lemma_head_round_trip(s, p1, 0, 0);
    lemma_head_round_trip(s, p2, 0, m.version);
    lemma_head_round_trip(s, p3, 0, 1);
    crate::delegation::lemma_address_round_trip(s, p4, m.address);
    lemma_head_round_trip(s, p5, 0, 2);
    lemma_bstr_round_trip(s, p6, m.module);
    lemma_head_round_trip(s, p7, 0, 3);
    lemma_bstr_round_trip(s, p8, m.memory);
}

/// Typed access to the records of the execution host, by their keys.
pub struct Storage {
    root: Vec<u8>,
}

impl Storage {
    /// Storage kept in the directory at `root`.
    pub fn new(root: Vec<u8>) -> (r: Storage)
        ensures
            r.root_spec() == root@,
    {
        Storage { root }
    }

    pub closed spec fn root_spec(&self) -> Seq<u8> {
        self.root@
    }

    pub fn root(&self) -> (r: &Vec<u8>)
        ensures
            r@ == self.root_spec(),
    {
        &self.root
    }

    /// The info of the module at `address`, given what the store holds under its
    /// key. Fails where it holds nothing or what does not decode.
    pub fn module_info(&self, address: Address, stored: Option<Vec<u8>>) -> (r: Result<
        StorageRef<ModuleInfo>,
        ManyError,
    >)
        ensures
            match stored {
                None => r matches Err(e) && e.kind == ErrorKind::ModuleNotFound,
                Some(b) => match decode_module_info(b@) {
                    Some(v) => r matches Ok(x) && x@ == (StorageRefView {
                        key: module_info_key(address@),
                        dirty: false,
                        value: v,
                    }),
                    None => r matches Err(e) && e.kind == ErrorKind::DeserializationError,
                },
            },
    {
        match StorageRef::<ModuleInfo>::load(key_for_module_info(address), stored) {
            Ok(Some(r)) => Ok(r),
            Ok(None) => Err(ManyError::new(ErrorKind::ModuleNotFound, "Unknown module.")),
            Err(e) => Err(e),
        }
    }

    /// A reference to a new module info, under the key of its address; written on
    /// release.
    pub fn new_module_info(&self, info: ModuleInfo) -> (r: StorageRef<ModuleInfo>)
        ensures
            r@ == (StorageRefView { key: module_info_key(info.address@), dirty: true, value: info@ }),
    {
        let key = key_for_module_info(info.address);
        StorageRef::new(key, info)
    }
}

} // verus!
