//! Bencode values: decoding and encoding through `serde_bencode`, and
//! reading the fields of decoded values.

use vstd::prelude::*;
use vstd::utf8::{decode_utf8, valid_utf8};


verus! {

/// `serde_bencode::value::Value`, known to Verus as an opaque type.
#[verifier::external_type_specification]
#[verifier::external_body]
pub struct ExBencodeValue(serde_bencode::value::Value);

/// `serde_bencode::Error`, known to Verus as an opaque type.
#[verifier::external_type_specification]
#[verifier::external_body]
pub struct ExBencodeError(serde_bencode::Error);

/// A bencode value: an integer, a byte string, a list, or a dictionary with
/// byte-string keys.
#[derive(Debug)]
pub enum BencodeValue {
    Int(i64),
    Bytes(Vec<u8>),
    List(Vec<BencodeValue>),
    Dict(Vec<(Vec<u8>, BencodeValue)>),
}

/// A bencode value as a mathematical value; a dictionary is a map from keys
/// to values.
pub ghost enum BView {
    Int(int),
    Bytes(Seq<u8>),
    List(Seq<BView>),
    Dict(Map<Seq<u8>, BView>),
}

/// The mathematical value of a bencode value.
pub open spec fn bview(v: BencodeValue) -> BView
    decreases v,
{
    match v {
        BencodeValue::Int(n) => BView::Int(n as int),
        BencodeValue::Bytes(b) => BView::Bytes(b@),
        BencodeValue::List(items) => BView::List(list_view(items@)),
        BencodeValue::Dict(entries) => BView::Dict(entries_view(entries@)),
    }
}

/// The mathematical values of a sequence of bencode values.
pub open spec fn list_view(s: Seq<BencodeValue>) -> Seq<BView>
    decreases s,
{
    if s.len() == 0 {
        Seq::empty()
    } else {
        list_view(s.drop_last()).push(bview(s.last()))
    }
}

/// The map of dictionary entries; a later entry for a key wins.
pub open spec fn entries_view(s: Seq<(Vec<u8>, BencodeValue)>) -> Map<Seq<u8>, BView>
    decreases s,
{
    if s.len() == 0 {
        Map::empty()
    } else {
        entries_view(s.drop_last()).insert(s.last().0@, bview(s.last().1))
    }
}

impl View for BencodeValue {
    type V = BView;

    open spec fn view(&self) -> BView {
        bview(*self)
    }
}

/// No dictionary, at any depth, holds a key twice.
pub open spec fn value_wf(v: BencodeValue) -> bool
    decreases v,
{
    match v {
        BencodeValue::Int(_) => true,
        BencodeValue::Bytes(_) => true,
        BencodeValue::List(items) => list_wf(items@),
        BencodeValue::Dict(entries) => entries_wf(entries@),
    }
}

/// Every value of the sequence is well formed.
pub open spec fn list_wf(s: Seq<BencodeValue>) -> bool
    decreases s,
{
    s.len() == 0 || (list_wf(s.drop_last()) && value_wf(s.last()))
}

/// Keys are distinct and every value is well formed.
pub open spec fn entries_wf(s: Seq<(Vec<u8>, BencodeValue)>) -> bool
    decreases s,
{
    s.len() == 0 || (entries_wf(s.drop_last()) && value_wf(s.last().1)
        && forall|i: int| 0 <= i < s.len() - 1 ==> #[trigger] s[i].0@ != s.last().0@)
}

/// The value that `serde_bencode::from_bytes` reads from the front of some
/// bytes, if they start with a bencode value (bytes after it are not read).
pub uninterp spec fn spec_bencode_decode(data: Seq<u8>) -> Option<BView>;

/// The bytes that `serde_bencode::to_bytes` writes for a value.
pub uninterp spec fn spec_bencode_encode(v: BView) -> Seq<u8>;

/// Converts a `serde_bencode::value::Value` into a value of this library,
/// node for node (a dictionary's entries in the order its `HashMap` yields
/// them). It has no contract: the contract of `bencode_from_bytes`, whose
/// body uses it, speaks of the converted value.
#[verifier::external_body]
fn plain_value(v: serde_bencode::value::Value) -> BencodeValue {
    match v {
        serde_bencode::value::Value::Int(n) => BencodeValue::Int(n),
        serde_bencode::value::Value::Bytes(b) => BencodeValue::Bytes(b),
        serde_bencode::value::Value::List(l) => BencodeValue::List(l.into_iter().map(plain_value).collect()),
        serde_bencode::value::Value::Dict(d) => BencodeValue::Dict(d.into_iter().map(|(k, v)| (k, plain_value(v))).collect()),
    }
}

/// Converts a value of this library into a `serde_bencode::value::Value`,
/// node for node (a later dictionary entry for a key replaces an earlier
/// one, as the `HashMap` keeps it). It has no contract: the contract of
/// `bencode_to_bytes`, whose body uses it, speaks of the written bytes.
#[verifier::external_body]
fn outside_value(v: &BencodeValue) -> serde_bencode::value::Value {
    match v {
        BencodeValue::Int(n) => serde_bencode::value::Value::Int(*n),
        BencodeValue::Bytes(b) => serde_bencode::value::Value::Bytes(b.clone()),
        BencodeValue::List(l) => serde_bencode::value::Value::List(l.iter().map(outside_value).collect()),
        BencodeValue::Dict(d) => serde_bencode::value::Value::Dict(d.iter().map(|(k, v)| (k.clone(), outside_value(v))).collect()),
    }
}

/// Reads the bencode value at the front of `data` with
/// `serde_bencode::from_bytes::<Value>`. Trusted: that the result is a
/// function of the bytes alone (dictionaries are maps), and that the
/// dictionaries it yields hold each key once (they come from a `HashMap`).
#[verifier::external_body]
fn bencode_from_bytes(data: &[u8]) -> (res: Result<BencodeValue, serde_bencode::Error>)
    ensures
        res is Ok <==> spec_bencode_decode(data@) is Some,
        res matches Ok(v) ==> v@ == spec_bencode_decode(data@).unwrap() && value_wf(v),
{
    serde_bencode::from_bytes::<serde_bencode::value::Value>(data).map(plain_value)
}

/// Writes a value with `serde_bencode::to_bytes`. Trusted: writing a `Value`
/// never fails (no floats, map keys are byte strings), the bytes are a
/// function of the value (dictionary keys are written sorted), and reading
/// them back, with anything after them, gives the value again.
#[verifier::external_body]
fn bencode_to_bytes(v: &BencodeValue) -> (res: Result<Vec<u8>, serde_bencode::Error>)
    ensures
        res is Ok,
        res matches Ok(b) ==> b@ == spec_bencode_encode(v@),
        res matches Ok(b) ==> forall|rest: Seq<u8>| #[trigger] spec_bencode_decode(b@ + rest) == Some(v@),
{
    serde_bencode::to_bytes(&outside_value(v))
}

/// Reads the bencode value at the front of `data`; bytes after it are not
/// read.
pub fn decode(data: &[u8]) -> (res: Result<BencodeValue, crate::types::TorrentError>)
    ensures
        match res {
            Ok(v) => spec_bencode_decode(data@) == Some(v@) && value_wf(v),
            Err(e) => spec_bencode_decode(data@) is None && e == crate::types::TorrentError::Bencode,
        },
{
    match bencode_from_bytes(data) {
        Ok(v) => Ok(v),
        Err(_) => Err(crate::types::TorrentError::Bencode),
    }
}

/// The bencode bytes of a value.
pub fn encode(v: &BencodeValue) -> (res: Vec<u8>)
    ensures
        res@ == spec_bencode_encode(v@),
        forall|rest: Seq<u8>| #[trigger] spec_bencode_decode(res@ + rest) == Some(v@),
{
    match bencode_to_bytes(v) {
        Ok(b) => b,
        Err(_) => vstd::pervasive::unreached(),
    }
}

/// Whether two byte strings are equal.
pub fn bytes_eq(a: &[u8], b: &[u8]) -> (res: bool)
    ensures
        res == (a@ == b@),
{
    if a.len() != b.len() {
        return false;
    }
    let mut i: usize = 0;
    while i < a.len()
        invariant
            a@.len() == b@.len(),
            i <= a@.len(),
            forall|j: int| 0 <= j < i ==> a@[j] == b@[j],
        decreases a@.len() - i,
    {
        if a[i] != b[i] {
            return false;
        }
        i = i + 1;
    }
    assert(a@ =~= b@);
    true
}

/// A key is in the map of some entries if and only if some entry has it.
pub proof fn lemma_entries_view(s: Seq<(Vec<u8>, BencodeValue)>, k: Seq<u8>)
    ensures
        entries_view(s).dom().finite(),
        entries_view(s).dom().contains(k) <==> exists|i: int| 0 <= i < s.len() && #[trigger] s[i].0@ == k,
    decreases s.len(),
{
    if s.len() > 0 {
        let t = s.drop_last();
        lemma_entries_view(t, k);
        if s.last().0@ != k {
            assert forall|i: int| 0 <= i < t.len() && #[trigger] t[i].0@ == k implies s[i].0@ == k by {}
            assert forall|i: int| 0 <= i < s.len() && #[trigger] s[i].0@ == k implies i < t.len() && t[i].0@ == k by {}
        } else {
            assert(s[s.len() - 1].0@ == k);
        }
    }
}

/// The value of a key in the map of some entries is that of the last
/// entry with the key.
pub proof fn lemma_entries_view_last(s: Seq<(Vec<u8>, BencodeValue)>, i: int)
    requires
        0 <= i < s.len(),
        forall|j: int| i < j < s.len() ==> #[trigger] s[j].0@ != s[i].0@,
    ensures
        entries_view(s).dom().contains(s[i].0@),
        entries_view(s)[s[i].0@] == bview(s[i].1),
    decreases s.len(),
{
    let t = s.drop_last();
    if i < s.len() - 1 {
        assert(s[s.len() - 1].0@ != s[i].0@);
        assert forall|j: int| i < j < t.len() implies #[trigger] t[j].0@ != t[i].0@ by {
            assert(t[j] == s[j]);
        }
        lemma_entries_view_last(t, i);
    }
}

/// The value that a dictionary's entries hold for `key`: the last entry with
/// that key.
pub fn dict_get<'a>(entries: &'a Vec<(Vec<u8>, BencodeValue)>, key: &[u8]) -> (res: Option<&'a BencodeValue>)
    ensures
        match res {
            Some(v) => entries_view(entries@).dom().contains(key@) && entries_view(entries@)[key@] == v@,
            None => !entries_view(entries@).dom().contains(key@),
        },
{
    proof {
        lemma_entries_view(entries@, key@);
    }
    let mut i = entries.len();
    while i > 0
        invariant
            i <= entries@.len(),
            forall|j: int| i <= j < entries@.len() ==> #[trigger] entries@[j].0@ != key@,
        decreases i,
    {
        i = i - 1;
        if bytes_eq(entries[i].0.as_slice(), key) {
            proof {
                lemma_entries_view_last(entries@, i as int);
            }
            return Some(&entries[i].1);
        }
    }
    None
}


/// Every key of a dictionary is valid UTF-8.
pub open spec fn keys_utf8(m: Map<Seq<u8>, BView>) -> bool {
    forall|k: Seq<u8>| m.dom().contains(k) ==> valid_utf8(k)
}

/// `m` with `k` mapped to the value, where there is one.
pub open spec fn opt_insert(m: Map<Seq<u8>, BView>, k: Seq<u8>, v: Option<BView>) -> Map<Seq<u8>, BView> {
    match v {
        Some(x) => m.insert(k, x),
        None => m,
    }
}

/// An integer value, where there is a number.
pub open spec fn opt_int(n: Option<int>) -> Option<BView> {
    match n {
        Some(x) => Some(BView::Int(x)),
        None => None,
    }
}

/// An optional field of a dictionary, read with `read`; absent is `None`.
pub open spec fn opt_field<T>(m: Map<Seq<u8>, BView>, k: Seq<u8>, read: spec_fn(BView) -> Option<T>) -> Option<T> {
    if m.dom().contains(k) {
        read(m[k])
    } else {
        None
    }
}

/// A field that is present but that `read` refuses.
pub open spec fn field_invalid<T>(m: Map<Seq<u8>, BView>, k: Seq<u8>, read: spec_fn(BView) -> Option<T>) -> bool {
    m.dom().contains(k) && read(m[k]) is None
}

/// An entry added at the end of some entries maps its key to its value.
pub proof fn lemma_entries_view_push(s: Seq<(Vec<u8>, BencodeValue)>, e: (Vec<u8>, BencodeValue))
    ensures
        entries_view(s.push(e)) == entries_view(s).insert(e.0@, bview(e.1)),
{
    assert(s.push(e).drop_last() =~= s);
}

/// Whether every key of a dictionary's entries is valid UTF-8.
pub fn all_keys_utf8(entries: &Vec<(Vec<u8>, BencodeValue)>) -> (res: bool)
    ensures
        res == keys_utf8(entries_view(entries@)),
{
    let mut i: usize = 0;
    while i < entries.len()
        invariant
            i <= entries@.len(),
            forall|j: int| 0 <= j < i ==> valid_utf8(#[trigger] entries@[j].0@),
        decreases entries@.len() - i,
    {
        let key = vstd::slice::slice_to_vec(entries[i].0.as_slice());
        if crate::text::string_from_utf8(key).is_none() {
            proof {
                lemma_entries_view(entries@, entries@[i as int].0@);
            }
            return false;
        }
        i = i + 1;
    }
    proof {
        assert forall|k: Seq<u8>| entries_view(entries@).dom().contains(k) implies valid_utf8(k) by {
            lemma_entries_view(entries@, k);
        }
    }
    true
}

/// The text of a byte-string value, if it is valid UTF-8.
pub open spec fn text_field(v: BView) -> Option<Seq<char>> {
    match v {
        BView::Bytes(b) => if valid_utf8(b) { Some(decode_utf8(b)) } else { None },
        _ => None,
    }
}

/// The number of an integer value, if it fits a `usize`.
pub open spec fn usize_field(v: BView) -> Option<usize> {
    match v {
        BView::Int(n) => if 0 <= n <= usize::MAX { Some(n as usize) } else { None },
        _ => None,
    }
}

/// The number of an integer value, if it fits a `u32`.
pub open spec fn u32_field(v: BView) -> Option<u32> {
    match v {
        BView::Int(n) => if 0 <= n <= u32::MAX { Some(n as u32) } else { None },
        _ => None,
    }
}

/// The number of an integer value, if it fits a `u16`.
pub open spec fn u16_field(v: BView) -> Option<u16> {
    match v {
        BView::Int(n) => if 0 <= n <= u16::MAX { Some(n as u16) } else { None },
        _ => None,
    }
}

/// The number of an integer value, if it fits a `u8`.
pub open spec fn u8_field(v: BView) -> Option<u8> {
    match v {
        BView::Int(n) => if 0 <= n <= u8::MAX { Some(n as u8) } else { None },
        _ => None,
    }
}

/// The bytes of a value read as a byte buffer: a byte string, or a list of
/// integers that each fit a byte.
pub open spec fn bytes_field(v: BView) -> Option<Seq<u8>> {
    match v {
        BView::Bytes(b) => Some(b),
        BView::List(items) => if forall|i: int| 0 <= i < items.len() ==> #[trigger] u8_field(items[i]) is Some {
            Some(Seq::new(items.len(), |i: int| u8_field(items[i]).unwrap()))
        } else {
            None
        },
        _ => None,
    }
}

/// The bytes of a value read as a byte buffer: a byte string, or a list of
/// integers that each fit a byte.
pub fn read_bytes(v: &BencodeValue) -> (res: Option<Vec<u8>>)
    ensures
        match res {
            Some(b) => bytes_field(v@) == Some(b@),
            None => bytes_field(v@) is None,
        },
{
    match v {
        BencodeValue::Bytes(b) => Some(vstd::slice::slice_to_vec(b.as_slice())),
        BencodeValue::List(items) => {
            proof {
                crate::json::lemma_list_view(items@);
            }
            let ghost lv = list_view(items@);
            assert(v@ == BView::List(lv));
            let mut out: Vec<u8> = Vec::new();
            let mut i: usize = 0;
            while i < items.len()
                invariant
                    i <= items@.len(),
                    v@ == BView::List(lv),
                    lv.len() == items@.len(),
                    forall|j: int| 0 <= j < items@.len() ==> #[trigger] lv[j] == bview(items@[j]),
                    out@.len() == i,
                    forall|j: int| 0 <= j < i ==> #[trigger] u8_field(lv[j]) == Some(out@[j]),
                decreases items@.len() - i,
            {
                match read_u8(&items[i]) {
                    Some(b) => {
                        out.push(b);
                    },
                    None => {
                        assert(u8_field(lv[i as int]) is None);
                        return None;
                    },
                }
                i = i + 1;
            }
            assert(out@ =~= Seq::new(lv.len(), |j: int| u8_field(lv[j]).unwrap()));
            Some(out)
        },
        _ => None,
    }
}

/// The text of a byte-string value, if it is valid UTF-8.
pub fn read_text(v: &BencodeValue) -> (res: Option<String>)
    ensures
        match res {
            Some(s) => text_field(v@) == Some(s@),
            None => text_field(v@) is None,
        },
{
    match v {
        BencodeValue::Bytes(b) => crate::text::string_from_utf8(vstd::slice::slice_to_vec(b.as_slice())),
        _ => None,
    }
}

/// The number of an integer value, if it fits a `usize`.
pub fn read_usize(v: &BencodeValue) -> (res: Option<usize>)
    ensures
        res == usize_field(v@),
{
    match v {
        BencodeValue::Int(n) => if *n >= 0 && (*n as u64) <= (usize::MAX as u64) { Some(*n as usize) } else { None },
        _ => None,
    }
}

/// The number of an integer value, if it fits a `u32`.
pub fn read_u32(v: &BencodeValue) -> (res: Option<u32>)
    ensures
        res == u32_field(v@),
{
    match v {
        BencodeValue::Int(n) => if *n >= 0 && *n <= 0xFFFF_FFFF { Some(*n as u32) } else { None },
        _ => None,
    }
}

/// The number of an integer value, if it fits a `u16`.
pub fn read_u16(v: &BencodeValue) -> (res: Option<u16>)
    ensures
        res == u16_field(v@),
{
    match v {
        BencodeValue::Int(n) => if *n >= 0 && *n <= 0xFFFF { Some(*n as u16) } else { None },
        _ => None,
    }
}

/// The number of an integer value, if it fits a `u8`.
pub fn read_u8(v: &BencodeValue) -> (res: Option<u8>)
    ensures
        res == u8_field(v@),
{
    match v {
        BencodeValue::Int(n) => if *n >= 0 && *n <= 0xFF { Some(*n as u8) } else { None },
        _ => None,
    }
}

} // verus!
