//! The weights of a model: tensors by name, read from archives.

use crate::binary16::{is_widened, widen};
use crate::chars::{copy_text, same_text};
use crate::tensor::{append_range, numel};
use vstd::hash_map::StringHashMap;
use vstd::prelude::*;

verus! {

/// A tensor of single-precision numbers, given by their bit patterns.
#[derive(Debug, Clone)]
pub struct WeightTensor {
    pub data: Vec<u32>,
    pub shape: Vec<usize>,
}

impl WeightTensor {
    /// The shape counts the elements.
    pub open spec fn well_formed(self) -> bool {
        self.data@.len() == numel(self.shape@)
    }

    /// A tensor of the given elements.
    pub fn new(data: Vec<u32>, shape: Vec<usize>) -> (t: Self)
        requires
            data@.len() == numel(shape@),
        ensures
            t.well_formed(),
            t.data@ == data@,
            t.shape@ == shape@,
    {
        WeightTensor { data, shape }
    }
}

/// Why weights could not be read.
#[derive(Debug, Clone)]
pub enum WeightError {
    /// The bytes are no archive of tensors.
    InvalidArchive(String),
    /// The elements of a tensor are of a type that is not supported.
    UnsupportedType { kind: String, name: String },
    /// The list of archives is no JSON.
    InvalidJson(String),
    /// The list of archives has no map of weights.
    InvalidIndex,
}

/// A tensor as it stands in an archive: its elements as bytes, least significant byte
/// first.
#[derive(Debug, Clone)]
pub struct RawTensor {
    pub name: String,
    pub kind: String,
    pub shape: Vec<usize>,
    pub data: Vec<u8>,
}

/// The bytes per element of the types that are supported.
pub open spec fn element_size(kind: Seq<char>) -> Option<int> {
    if kind == "F32"@ {
        Some(4)
    } else if kind == "BF16"@ || kind == "F16"@ {
        Some(2)
    } else {
        None
    }
}

impl RawTensor {
    /// The bytes are as many as shape and type say.
    pub open spec fn well_formed(self) -> bool {
        element_size(self.kind@) matches Some(size) ==> self.data@.len() == size * numel(
            self.shape@,
        )
    }
}

/// What an archive says of a tensor: the name of the type of its elements, its shape,
/// and its bytes.
pub open spec fn raw_facts(t: RawTensor) -> (Seq<char>, Seq<usize>, Seq<u8>) {
    (t.kind@, t.shape@, t.data@)
}

/// Whether a list holds every tensor of an archive, and no other, and none twice.
pub open spec fn lists_archive(
    v: Seq<RawTensor>,
    m: Map<Seq<char>, (Seq<char>, Seq<usize>, Seq<u8>)>,
) -> bool {
    &&& forall|i: int|
        0 <= i < v.len() ==> m.contains_key((#[trigger] v[i]).name@) && m[v[i].name@] == raw_facts(
            v[i],
        )
    &&& forall|n: Seq<char>| #[trigger]
        m.contains_key(n) ==> exists|i: int| 0 <= i < v.len() && (#[trigger] v[i]).name@ == n
    &&& forall|i: int, j: int|
        0 <= i < j < v.len() ==> (#[trigger] v[i]).name@ != (#[trigger] v[j]).name@
}

/// The tensors of an archive by name, or nothing where the bytes are no archive.
pub uninterp spec fn archive(bytes: Seq<u8>) -> Option<
    Map<Seq<char>, (Seq<char>, Seq<usize>, Seq<u8>)>,
>;

/// What is wrong with an archive.
#[verifier::external_type_specification]
#[verifier::external_body]
pub struct ExArchiveError(safetensors::SafeTensorError);

/// The number of bytes that a header claims for its tensors, or nothing where it is no
/// header.
pub uninterp spec fn claimed_len(header: Seq<u8>) -> Option<usize>;

/// `serde_json::from_slice` makes a `safetensors::tensor::Metadata` of a header, as
/// `safetensors::SafeTensors::read_metadata` does, and `data_len` of it is where the last
/// tensor ends. All of it is decided by the bytes.
#[verifier::external_body]
fn header_claim(header: &[u8]) -> (r: Option<usize>)
    ensures
        r == claimed_len(header@),
{
    let read: Result<safetensors::tensor::Metadata, _> = serde_json::from_slice(header);
    read.ok().map(|metadata| metadata.data_len())
}

/// The number that the eight bytes at the front stand for, least significant first: the
/// length of the header behind them.
pub open spec fn header_len(bytes: Seq<u8>) -> int {
    four_bytes(bytes, 0) + 0x1_0000_0000 * four_bytes(bytes, 4)
}

/// Whether an address can count what an archive claims to be: eight bytes, the header, and
/// the bytes that the header claims.
pub open spec fn claims_fit(bytes: Seq<u8>) -> bool {
    let n = header_len(bytes);
    8 <= bytes.len() && 8 + n <= bytes.len() ==> match claimed_len(bytes.subrange(8, 8 + n)) {
        Some(claimed) => claimed + 8 + n <= usize::MAX,
        None => true,
    }
}

/// `safetensors::SafeTensors::deserialize` reads an archive that its bytes alone
/// decide. It refuses a tensor whose bytes are not as many as its shape and type say.
/// It adds up what an archive claims without a check, so the sum has to fit.
/// `safetensors::SafeTensors::tensors` lists every tensor once, in an order that is
/// left open; `safetensors::Dtype` is written as the name of the type.
#[verifier::external_body]
fn read_archive(bytes: &[u8]) -> (r: Result<Vec<RawTensor>, safetensors::SafeTensorError>)
    requires
        claims_fit(bytes@),
    ensures
        match r {
            Ok(v) => archive(bytes@) is Some && lists_archive(v@, archive(bytes@)->0) && forall|i: int|
                0 <= i < v@.len() ==> (#[trigger] v@[i]).well_formed(),
            Err(_) => archive(bytes@) is None,
        },
{
    let found = safetensors::SafeTensors::deserialize(bytes)?;
    Ok(found.tensors().into_iter().map(|(name, view)| RawTensor {
        name,
        kind: view.dtype().to_string(),
        shape: view.shape().to_vec(),
        data: view.data().to_vec(),
    }).collect())
}

/// The `Display` form of `safetensors::SafeTensorError`. Nothing is said of its words.
#[verifier::external_body]
fn archive_error_text(e: &safetensors::SafeTensorError) -> (s: String) {
    e.to_string()
}

/// The number that the two bytes from `i` on stand for, least significant first.
pub open spec fn two_bytes(d: Seq<u8>, i: int) -> int {
    d[i] + 0x100 * d[i + 1]
}

/// The number that the four bytes from `i` on stand for, least significant first.
pub open spec fn four_bytes(d: Seq<u8>, i: int) -> int {
    two_bytes(d, i) + 0x1_0000 * two_bytes(d, i + 2)
}

/// Whether `values` are the numbers that stand in the bytes `data` of a supported
/// type.
pub open spec fn decodes(kind: Seq<char>, data: Seq<u8>, values: Seq<u32>) -> bool {
    if kind == "F32"@ {
        values.len() == data.len() / 4 && forall|i: int|
            0 <= i < values.len() ==> #[trigger] values[i] == four_bytes(data, 4 * i)
    } else if kind == "BF16"@ {
        values.len() == data.len() / 2 && forall|i: int|
            0 <= i < values.len() ==> #[trigger] values[i] == 0x1_0000 * two_bytes(data, 2 * i)
    } else {
        kind == "F16"@ && values.len() == data.len() / 2 && forall|i: int|
            0 <= i < values.len() ==> is_widened(two_bytes(data, 2 * i) as u16, #[trigger] values[i])
    }
}

/// Whether what an archive claims fits.
fn check_claims(bytes: &[u8]) -> (r: bool)
    ensures
        r == claims_fit(bytes@),
{
    if bytes.len() < 8 {
        return true;
    }
    let low: u64 = pair_at(bytes, 0) as u64 + 0x1_0000 * (pair_at(bytes, 2) as u64);
    let high: u64 = pair_at(bytes, 4) as u64 + 0x1_0000 * (pair_at(bytes, 6) as u64);
    let n: u64 = low + 0x1_0000_0000 * high;
    if n > (bytes.len() - 8) as u64 {
        return true;
    }
    let n: usize = n as usize;
    let mut header: Vec<u8> = Vec::new();
    append_range(&mut header, bytes, 8, 8 + n);
    assert(header@ =~= bytes@.subrange(8, 8 + n));
    match header_claim(&header) {
        Some(claimed) => claimed <= usize::MAX - 8 - n,
        None => true,
    }
}

fn pair_at(data: &[u8], i: usize) -> (b: u16)
    requires
        i + 1 < data@.len(),
    ensures
        b == two_bytes(data@, i as int),
{
    data[i] as u16 + 0x100 * (data[i + 1] as u16)
}

fn decode_singles(data: &[u8]) -> (values: Vec<u32>)
    ensures
        decodes("F32"@, data@, values@),
{
    let mut values: Vec<u32> = Vec::new();
    let len: usize = data.len();
    let n: usize = len / 4;
    for i in 0..n
        invariant
            len == data@.len(),
            n == len / 4,
            values@.len() == i,
            forall|k: int| 0 <= k < i ==> #[trigger] values@[k] == four_bytes(data@, 4 * k),
    {
        let low: u16 = pair_at(data, 4 * i);
        let high: u16 = pair_at(data, 4 * i + 2);
        values.push(low as u32 + 0x1_0000 * (high as u32));
    }
    values
}

fn decode_brain_floats(data: &[u8]) -> (values: Vec<u32>)
    ensures
        decodes("BF16"@, data@, values@),
{
    let mut values: Vec<u32> = Vec::new();
    let len: usize = data.len();
    let n: usize = len / 2;
    for i in 0..n
        invariant
            len == data@.len(),
            n == len / 2,
            values@.len() == i,
            forall|k: int| 0 <= k < i ==> #[trigger] values@[k] == 0x1_0000 * two_bytes(data@, 2 * k),
    {
        let b: u16 = pair_at(data, 2 * i);
        values.push(0x1_0000 * (b as u32));
    }
    proof {
        reveal_strlit("F32");
        reveal_strlit("BF16");
        assert("BF16"@.len() != "F32"@.len());
    }
    values
}

fn decode_halves(data: &[u8]) -> (values: Vec<u32>)
    ensures
        decodes("F16"@, data@, values@),
{
    let mut values: Vec<u32> = Vec::new();
    let len: usize = data.len();
    let n: usize = len / 2;
    for i in 0..n
        invariant
            len == data@.len(),
            n == len / 2,
            values@.len() == i,
            forall|k: int| 0 <= k < i ==> is_widened(two_bytes(data@, 2 * k) as u16, #[trigger] values@[k]),
    {
        let b: u16 = pair_at(data, 2 * i);
        let r: u32 = widen(b);
        values.push(r);
    }
    proof {
        reveal_strlit("F32");
        reveal_strlit("BF16");
        reveal_strlit("F16");
        assert("BF16"@.len() != "F16"@.len());
        assert("F16"@[1] != "F32"@[1]);
    }
    values
}

/// The numbers of a tensor, if its type is supported.
pub fn decode_elements(kind: &str, data: &[u8]) -> (r: Option<Vec<u32>>)
    ensures
        match r {
            Some(values) => element_size(kind@) is Some && decodes(
                kind@,
                data@,
                values@,
            ),
            None => element_size(kind@) is None,
        },
{
    if same_text(kind, "F32") {
        Some(decode_singles(data))
    } else if same_text(kind, "BF16") {
        Some(decode_brain_floats(data))
    } else if same_text(kind, "F16") {
        Some(decode_halves(data))
    } else {
        None
    }
}

/// Tensors by name.
pub struct Weights {
    tensors: StringHashMap<WeightTensor>,
}

impl View for Weights {
    type V = Map<Seq<char>, WeightTensor>;

    closed spec fn view(&self) -> Map<Seq<char>, WeightTensor> {
        self.tensors@
    }
}

impl Weights {
    /// Every tensor has as many elements as its shape says.
    pub open spec fn well_formed(self) -> bool {
        forall|n: Seq<char>| #[trigger] self@.contains_key(n) ==> self@[n].well_formed()
    }

    /// No tensors.
    pub fn new() -> (w: Self)
        ensures
            w.well_formed(),
            w@ == Map::<Seq<char>, WeightTensor>::empty(),
    {
        Weights { tensors: StringHashMap::new() }
    }

    /// Adds a tensor, in place of one of the same name.
    pub fn insert(&mut self, name: String, tensor: WeightTensor)
        requires
            old(self).well_formed(),
            tensor.well_formed(),
        ensures
            final(self).well_formed(),
            final(self)@ == old(self)@.insert(name@, tensor),
    {
        let ghost before = self@;
        self.tensors.insert(name, tensor);
        assert forall|n: Seq<char>| #[trigger] self@.contains_key(n) implies self@[n].well_formed() by {
            assert(n == name@ || before.contains_key(n));
        }
    }

    /// Adds tensors, in place of those of the same names.
    pub fn extend(&mut self, more: Weights)
        requires
            old(self).well_formed(),
            more.well_formed(),
        ensures
            final(self).well_formed(),
            final(self)@ == old(self)@.union_prefer_right(more@),
    {
        let ghost before = self@;
        self.tensors.union_prefer_right(more.tensors);
        assert forall|n: Seq<char>| #[trigger] self@.contains_key(n) implies self@[n].well_formed() by {
            assert(more@.contains_key(n) || before.contains_key(n));
        }
    }

    /// The tensor with a name.
    pub fn get(&self, name: &str) -> (r: Option<&WeightTensor>)
        ensures
            match r {
                Some(t) => self@.contains_key(name@) && *t == self@[name@],
                None => !self@.contains_key(name@),
            },
    {
        self.tensors.get(name)
    }

    /// The number of tensors.
    pub fn len(&self) -> (n: usize)
        ensures
            n == self@.len(),
    {
        self.tensors.len()
    }
}

pub(crate) fn copy_all<T: Copy>(v: &Vec<T>) -> (out: Vec<T>)
    ensures
        out@ == v@,
{
    let mut out: Vec<T> = Vec::new();
    append_range(&mut out, v, 0, v.len());
    assert(out@ =~= v@);
    out
}

/// Whether `w` holds the tensor `name` with the shape and the numbers that an archive
/// gives it.
pub open spec fn holds_decoded(
    w: Map<Seq<char>, WeightTensor>,
    name: Seq<char>,
    facts: (Seq<char>, Seq<usize>, Seq<u8>),
) -> bool {
    &&& w.contains_key(name)
    &&& w[name].shape@ == facts.1
    &&& decodes(facts.0, facts.2, w[name].data@)
}

/// Decodes a list of tensors with different names.
pub fn decode_tensors(raw: &[RawTensor]) -> (r: Result<Weights, WeightError>)
    requires
        forall|i: int| 0 <= i < raw@.len() ==> (#[trigger] raw@[i]).well_formed(),
        forall|i: int, j: int|
            0 <= i < j < raw@.len() ==> (#[trigger] raw@[i]).name@ != (#[trigger] raw@[j]).name@,
    ensures
        match r {
            Ok(w) => {
                &&& w.well_formed()
                &&& forall|i: int|
                    0 <= i < raw@.len() ==> element_size((#[trigger] raw@[i]).kind@) is Some
                        && holds_decoded(w@, raw@[i].name@, raw_facts(raw@[i]))
                &&& forall|n: Seq<char>| #[trigger]
                    w@.contains_key(n) ==> exists|i: int|
                        0 <= i < raw@.len() && (#[trigger] raw@[i]).name@ == n
            },
            Err(WeightError::UnsupportedType { kind, name }) => exists|i: int|
                0 <= i < raw@.len() && element_size((#[trigger] raw@[i]).kind@) is None && (
                forall|j: int|
                    0 <= j < i ==> element_size((#[trigger] raw@[j]).kind@) is Some)
                    && kind@ == raw@[i].kind@ && name@ == raw@[i].name@,
            Err(_) => false,
        },
{
    let mut w = Weights::new();
    let n: usize = raw.len();
    for i in 0..n
        invariant
            n == raw@.len(),
            forall|k: int| 0 <= k < raw@.len() ==> (#[trigger] raw@[k]).well_formed(),
            forall|k: int, j: int|
                0 <= k < j < raw@.len() ==> (#[trigger] raw@[k]).name@ != (
                #[trigger] raw@[j]).name@,
            w.well_formed(),
            forall|k: int|
                0 <= k < i ==> element_size((#[trigger] raw@[k]).kind@) is Some
                    && holds_decoded(w@, raw@[k].name@, raw_facts(raw@[k])),
            forall|m: Seq<char>| #[trigger]
                w@.contains_key(m) ==> exists|k: int|
                    0 <= k < i && (#[trigger] raw@[k]).name@ == m,
    {
        let t: &RawTensor = &raw[i];
        match decode_elements(t.kind.as_str(), &t.data) {
            Some(values) => {
                proof {
                    reveal_strlit("F32");
                    reveal_strlit("BF16");
                    reveal_strlit("F16");
                    assert(raw@[i as int].well_formed());
                    assert("BF16"@.len() != "F32"@.len());
                    assert("F16"@[1] != "F32"@[1]);
                    let size = element_size(t.kind@)->0;
                    let count = numel(t.shape@) as int;
                    assert((size * count) / size == count) by (nonlinear_arith)
                        requires
                            size == 2 || size == 4,
                    ;
                }
                let tensor = WeightTensor::new(values, copy_all(&t.shape));
                let ghost before = w@;
                w.insert(copy_text(t.name.as_str()), tensor);
                proof {
                    assert(w@ == before.insert(t.name@, tensor));
                    assert forall|m: Seq<char>| #[trigger] w@.contains_key(m) implies exists|k: int|
                        0 <= k < i + 1 && (#[trigger] raw@[k]).name@ == m by {
                        if m == t.name@ {
                            assert(raw@[i as int].name@ == m);
                        } else {
                            assert(before.contains_key(m));
                            let k = choose|k: int| 0 <= k < i && (#[trigger] raw@[k]).name@ == m;
                            assert(raw@[k].name@ == m);
                        }
                    }
                }
            },
            None => {
                return Err(
                    WeightError::UnsupportedType {
                        kind: copy_text(t.kind.as_str()),
                        name: copy_text(t.name.as_str()),
                    },
                );
            },
        }
    }
    Ok(w)
}

/// Reads an archive: every tensor of it, decoded. Bytes that claim to be more than an
/// address can count are no archive.
pub fn load_safetensors_file(bytes: &[u8]) -> (r: Result<Weights, WeightError>)
    ensures
        match r {
            Ok(w) => {
                &&& w.well_formed()
                &&& claims_fit(bytes@)
                &&& archive(bytes@) is Some
                &&& forall|n: Seq<char>| #[trigger]
                    w@.contains_key(n) <==> archive(bytes@)->0.contains_key(n)
                &&& forall|n: Seq<char>| #[trigger]
                    w@.contains_key(n) ==> element_size(archive(bytes@)->0[n].0) is Some
                        && holds_decoded(w@, n, archive(bytes@)->0[n])
            },
            Err(WeightError::InvalidArchive(text)) => if claims_fit(bytes@) {
                archive(bytes@) is None
            } else {
                text@ == "the archive claims too many bytes"@
            },
            Err(WeightError::UnsupportedType { kind, name }) => claims_fit(bytes@) && archive(
                bytes@,
            ) is Some && archive(bytes@)->0.contains_key(name@) && archive(bytes@)->0[name@].0
                == kind@ && element_size(kind@) is None,
            Err(_) => false,
        },
{
    if !check_claims(bytes) {
        return Err(WeightError::InvalidArchive("the archive claims too many bytes".to_string()));
    }
    match read_archive(bytes) {
        Err(e) => Err(WeightError::InvalidArchive(archive_error_text(&e))),
        Ok(raw) => {
            let ghost m = archive(bytes@)->0;
            match decode_tensors(&raw) {
                Ok(w) => {
                    proof {
                        assert forall|n: Seq<char>| m.contains_key(n) implies #[trigger] w@.contains_key(
                            n,
                        ) by {
                            let i = choose|i: int| 0 <= i < raw@.len() && (#[trigger] raw@[i]).name@
                                == n;
                            assert(holds_decoded(w@, raw@[i].name@, raw_facts(raw@[i])));
                        }
                        assert forall|n: Seq<char>| #[trigger] w@.contains_key(n) implies m.contains_key(
                            n,
                        ) && element_size(m[n].0) is Some && holds_decoded(w@, n, m[n]) by {
                            let i = choose|i: int| 0 <= i < raw@.len() && (#[trigger] raw@[i]).name@
                                == n;
                            assert(m[raw@[i].name@] == raw_facts(raw@[i]));
                        }
                    }
                    Ok(w)
                },
                Err(e) => Err(e),
            }
        },
    }
}

/// What is wrong with a JSON text.
#[verifier::external_type_specification]
#[verifier::external_body]
pub struct ExJsonError(serde_json::Error);

/// The values of the object that stands under a key of a JSON object, in the order of
/// their keys, each with its text where it is one. Nothing on the inside where no
/// object stands there, and nothing on the outside where the text is no JSON.
pub uninterp spec fn object_texts(text: Seq<char>, key: Seq<char>) -> Option<
    Option<Seq<Option<Seq<char>>>>,
>;

/// The views of optional texts.
pub open spec fn optional_texts(v: Seq<Option<String>>) -> Seq<Option<Seq<char>>> {
    v.map_values(
        |o: Option<String>|
            match o {
                Some(s) => Some(s@),
                None => None,
            },
    )
}

/// `serde_json::from_str` reads a value; indexing it by a key gives what stands there,
/// or null; `as_object` and `as_str` tell what kind of value that is. All of it is
/// decided by text and key.
#[verifier::external_body]
fn read_object_texts(text: &str, key: &str) -> (r: Result<
    Option<Vec<Option<String>>>,
    serde_json::Error,
>)
    ensures
        match r {
            Ok(Some(v)) => object_texts(text@, key@) == Some(Some(optional_texts(v@))),
            Ok(None) => object_texts(text@, key@) == Some(None::<Seq<Option<Seq<char>>>>),
            Err(_) => object_texts(text@, key@) is None,
        },
{
    let value: serde_json::Value = serde_json::from_str(text)?;
    Ok(value[key].as_object().map(|object| {
        object.values().map(|v| v.as_str().map(|s| s.to_string())).collect()
    }))
}

/// The `Display` form of `serde_json::Error`. Nothing is said of its words.
#[verifier::external_body]
fn json_error_text(e: &serde_json::Error) -> (s: String) {
    e.to_string()
}

/// Whether a text is among a list of texts.
pub open spec fn lists_text(v: Seq<String>, s: Seq<char>) -> bool {
    exists|i: int| 0 <= i < v.len() && (#[trigger] v[i])@ == s
}

fn contains_text(v: &[String], s: &str) -> (r: bool)
    ensures
        r == lists_text(v@, s@),
{
    for i in 0..v.len()
        invariant
            forall|k: int| 0 <= k < i ==> (#[trigger] v@[k])@ != s@,
    {
        if same_text(v[i].as_str(), s) {
            return true;
        }
    }
    false
}

/// The texts of a list, each once.
pub fn distinct_texts(values: &[Option<String>]) -> (out: Vec<String>)
    ensures
        forall|s: Seq<char>| #[trigger]
            lists_text(out@, s) <==> optional_texts(values@).contains(Some(s)),
        forall|i: int, j: int| 0 <= i < j < out@.len() ==> (#[trigger] out@[i])@ != (#[trigger] out@[j])@,
{
    let mut out: Vec<String> = Vec::new();
    let ghost all = optional_texts(values@);
    assert(!lists_text(out@, Seq::empty()));
    for i in 0..values.len()
        invariant
            all == optional_texts(values@),
            forall|s: Seq<char>| #[trigger]
                lists_text(out@, s) <==> all.take(i as int).contains(Some(s)),
            forall|k: int, j: int|
                0 <= k < j < out@.len() ==> (#[trigger] out@[k])@ != (#[trigger] out@[j])@,
    {
        let ghost before = out@;
        proof {
            assert(all.take(i + 1) =~= all.take(i as int).push(all[i as int]));
            assert forall|s: Seq<char>| #[trigger] all.take(i + 1).contains(Some(s)) <==> all.take(
                i as int,
            ).contains(Some(s)) || all[i as int] == Some(s) by {
                if all.take(i as int).contains(Some(s)) {
                    let k = choose|k: int|
                        0 <= k < all.take(i as int).len() && all.take(i as int)[k] == Some(s);
                    assert(all.take(i + 1)[k] == Some(s));
                }
                if all[i as int] == Some(s) {
                    assert(all.take(i + 1)[i as int] == Some(s));
                }
            }
        }
        match &values[i] {
            Some(text) => {
                if !contains_text(&out, text.as_str()) {
                    out.push(copy_text(text.as_str()));
                    proof {
                        assert forall|s: Seq<char>| #[trigger] lists_text(out@, s) <==> lists_text(
                            before,
                            s,
                        ) || s == text@ by {
                            if lists_text(before, s) {
                                let k = choose|k: int|
                                    0 <= k < before.len() && (#[trigger] before[k])@ == s;
                                assert(out@[k]@ == s);
                            }
                            if s == text@ {
                                assert(out@[before.len() as int]@ == s);
                            }
                            if lists_text(out@, s) {
                                let k = choose|k: int|
                                    0 <= k < out@.len() && (#[trigger] out@[k])@ == s;
                                if k < before.len() {
                                    assert(before[k]@ == s);
                                }
                            }
                        }
                        assert forall|k: int, j: int| 0 <= k < j < out@.len() implies (
                        #[trigger] out@[k])@ != (#[trigger] out@[j])@ by {
                            if j == before.len() {
                                assert(before[k]@ != text@);
                            }
                        }
                    }
                }
                assert(all[i as int] == Some(text@));
            },
            None => {
                assert(all[i as int] is None);
            },
        }
    }
    assert(all.take(values@.len() as int) =~= all);
    out
}

/// The archives that the list of a model names, each once.
pub fn shard_files(index: &str) -> (r: Result<Vec<String>, WeightError>)
    ensures
        ({
            let found = object_texts(index@, "weight_map"@);
            match r {
                Ok(files) => {
                    &&& found matches Some(Some(values)) && forall|s: Seq<char>| #[trigger]
                        lists_text(files@, s) <==> values.contains(Some(s))
                    &&& forall|i: int, j: int|
                        0 <= i < j < files@.len() ==> (#[trigger] files@[i])@ != (
                        #[trigger] files@[j])@
                },
                Err(WeightError::InvalidIndex) => found matches Some(None),
                Err(WeightError::InvalidJson(_)) => found is None,
                Err(_) => false,
            }
        }),
{
    match read_object_texts(index, "weight_map") {
        Ok(Some(values)) => Ok(distinct_texts(&values)),
        Ok(None) => Err(WeightError::InvalidIndex),
        Err(e) => Err(WeightError::InvalidJson(json_error_text(&e))),
    }
}

/// Elements are stored in order, the low byte first: a single-precision number in four
/// bytes; a number of the upper half of one in two; a half-precision number in two.
pub proof fn lemma_elements_are_little_endian(
    kind: Seq<char>,
    data: Seq<u8>,
    values: Seq<u32>,
    i: int,
)
    requires
        decodes(kind, data, values),
        0 <= i < values.len(),
    ensures
        kind == "F32"@ ==> values[i] == data[4 * i] + 0x100 * data[4 * i + 1] + 0x1_0000 * data[4 * i
            + 2] + 0x100_0000 * data[4 * i + 3],
        kind == "BF16"@ ==> values[i] == 0x1_0000 * data[2 * i] + 0x100_0000 * data[2 * i + 1],
        kind == "F16"@ ==> is_widened((data[2 * i] + 0x100 * data[2 * i + 1]) as u16, values[i]),
        kind == "F32"@ ==> values.len() == data.len() / 4,
        kind == "BF16"@ || kind == "F16"@ ==> values.len() == data.len() / 2,
        kind == "F32"@ || kind == "BF16"@ || kind == "F16"@,
{
    reveal_strlit("F32");
    reveal_strlit("BF16");
    reveal_strlit("F16");
    assert("F32"@.len() == 3 && "BF16"@.len() == 4 && "F16"@.len() == 3);
    assert("F32"@[1] == '3' && "F16"@[1] == '1');
    assert(values[i] == values[i]);
}

/// Which kinds of elements there are, and the bytes that one takes.
pub proof fn lemma_kinds_of_elements(kind: Seq<char>)
    ensures
        element_size("F32"@) == Some(4int),
        element_size("BF16"@) == Some(2int),
        element_size("F16"@) == Some(2int),
        kind != "F32"@ && kind != "BF16"@ && kind != "F16"@ ==> element_size(kind) is None,
{
    reveal_strlit("F32");
    reveal_strlit("BF16");
    reveal_strlit("F16");
    assert("F32"@.len() == 3 && "BF16"@.len() == 4 && "F16"@.len() == 3);
    assert("F32"@[1] == '3' && "F16"@[1] == '1');
}

/// The length of the header stands in the first eight bytes, the lowest one first.
pub proof fn lemma_header_len_is_little_endian(bytes: Seq<u8>)
    ensures
        header_len(bytes) == bytes[0] + 0x100 * bytes[1] + 0x1_0000 * bytes[2] + 0x100_0000
            * bytes[3] + 0x1_0000_0000 * bytes[4] + 0x100_0000_0000 * bytes[5] + 0x1_0000_0000_0000
            * bytes[6] + 0x100_0000_0000_0000 * bytes[7],
{
}

} // verus!
