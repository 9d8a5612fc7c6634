//! JSON values and the conversion of bencode values into them.

use vstd::prelude::*;
use vstd::utf8::{decode_utf8, decode_utf8_encode_utf8, encode_utf8, valid_utf8};
use crate::bencode::{bview, entries_view, entries_wf, lemma_entries_view, lemma_entries_view_last, list_view, list_wf, value_wf, BView, BencodeValue};
use crate::text::string_from_utf8;
use crate::types::TorrentError;

verus! {

/// A JSON value, as far as bencode can give one.
#[derive(Debug)]
pub enum JsonValue {
    Null,
    Number(i64),
    String(String),
    Array(Vec<JsonValue>),
    Object(Vec<(String, JsonValue)>),
}

/// A JSON value as a mathematical value; an object maps the UTF-8 bytes of
/// each key to its value.
pub ghost enum JView {
    Null,
    Number(int),
    Str(Seq<char>),
    Array(Seq<JView>),
    Object(Map<Seq<u8>, JView>),
}

/// The mathematical value of a JSON value.
pub open spec fn jview(v: JsonValue) -> JView
    decreases v,
{
    match v {
        JsonValue::Null => JView::Null,
        JsonValue::Number(n) => JView::Number(n as int),
        JsonValue::String(s) => JView::Str(s@),
        JsonValue::Array(items) => JView::Array(jlist_view(items@)),
        JsonValue::Object(entries) => JView::Object(jentries_view(entries@)),
    }
}

/// The mathematical values of a sequence of JSON values.
pub open spec fn jlist_view(s: Seq<JsonValue>) -> Seq<JView>
    decreases s,
{
    if s.len() == 0 {
        Seq::empty()
    } else {
        jlist_view(s.drop_last()).push(jview(s.last()))
    }
}

/// The map of object entries, keyed by the UTF-8 bytes of each key; a later
/// entry for a key wins.
pub open spec fn jentries_view(s: Seq<(String, JsonValue)>) -> Map<Seq<u8>, JView>
    decreases s,
{
    if s.len() == 0 {
        Map::empty()
    } else {
        jentries_view(s.drop_last()).insert(encode_utf8(s.last().0@), jview(s.last().1))
    }
}

impl View for JsonValue {
    type V = JView;

    open spec fn view(&self) -> JView {
        jview(*self)
    }
}

/// The JSON value of a bencode value: integers become numbers, byte strings
/// become strings (they must be UTF-8), lists become arrays and
/// dictionaries objects (their keys must be UTF-8). `None` where some byte
/// string, at any depth, is not UTF-8.
pub open spec fn spec_convert(v: BView) -> Option<JView>
    decreases v, 0nat,
{
    match v {
        BView::Int(n) => Some(JView::Number(n)),
        BView::Bytes(b) => if valid_utf8(b) {
            Some(JView::Str(decode_utf8(b)))
        } else {
            None
        },
        BView::List(items) => match convert_seq(items) {
            Some(js) => Some(JView::Array(js)),
            None => None,
        },
        BView::Dict(m) => if m.dom().finite() {
            match convert_entries(m, dom_keys(m)) {
                Some(o) => Some(JView::Object(o)),
                None => None,
            }
        } else {
            None
        },
    }
}

/// The JSON values of a sequence of bencode values, if all of them convert.
pub open spec fn convert_seq(s: Seq<BView>) -> Option<Seq<JView>>
    decreases s, 0nat,
{
    if s.len() == 0 {
        Some(Seq::empty())
    } else {
        match (convert_seq(s.drop_last()), spec_convert(s.last())) {
            (Some(front), Some(j)) => Some(front.push(j)),
            _ => None,
        }
    }
}

/// The converted entries of a dictionary for the given keys, if every key
/// is a UTF-8 key of the dictionary and every value converts.
pub open spec fn convert_entries(m: Map<Seq<u8>, BView>, keys: Seq<Seq<u8>>) -> Option<Map<Seq<u8>, JView>>
    decreases m, keys.len(),
{
    if keys.len() == 0 {
        Some(Map::empty())
    } else if m.dom().finite() && m.dom().contains(keys.last()) && valid_utf8(keys.last()) {
        match (convert_entries(m, keys.drop_last()), spec_convert(m[keys.last()])) {
            (Some(front), Some(j)) => Some(front.insert(keys.last(), j)),
            _ => None,
        }
    } else {
        None
    }
}

/// The keys of a dictionary, in some order.
pub open spec fn dom_keys(m: Map<Seq<u8>, BView>) -> Seq<Seq<u8>> {
    m.dom().to_seq()
}

/// Converting the entries of some keys: it succeeds if and only if every
/// key is a UTF-8 key of the dictionary whose value converts, and then maps
/// each of the keys to its converted value.
pub proof fn lemma_convert_entries(m: Map<Seq<u8>, BView>, keys: Seq<Seq<u8>>)
    ensures
        convert_entries(m, keys) is Some <==> (keys.len() == 0 || m.dom().finite())
            && forall|i: int| 0 <= i < keys.len() ==> m.dom().contains(#[trigger] keys[i])
                && valid_utf8(keys[i]) && spec_convert(m[keys[i]]) is Some,
        convert_entries(m, keys) matches Some(o) ==> o == Map::new(|k: Seq<u8>| keys.contains(k),
            |k: Seq<u8>| spec_convert(m[k]).unwrap()),
    decreases keys.len(),
{
    if keys.len() > 0 {
        let front = keys.drop_last();
        lemma_convert_entries(m, front);
        assert forall|i: int| 0 <= i < front.len() implies #[trigger] front[i] == keys[i] by {}
        if convert_entries(m, keys) is Some {
            assert forall|i: int| 0 <= i < keys.len() implies m.dom().contains(#[trigger] keys[i])
                && valid_utf8(keys[i]) && spec_convert(m[keys[i]]) is Some by {
                if i < keys.len() - 1 {
                    assert(front[i] == keys[i]);
                } else {
                    assert(keys[i] == keys.last());
                }
            }
            let o = convert_entries(m, keys).unwrap();
            assert(o =~= Map::new(|k: Seq<u8>| keys.contains(k), |k: Seq<u8>| spec_convert(m[k]).unwrap())) by {
                assert forall|k: Seq<u8>| keys.contains(k) implies front.contains(k) || k == keys.last() by {
                    let i = choose|i: int| 0 <= i < keys.len() && keys[i] == k;
                    if i < keys.len() - 1 {
                        assert(front[i] == k);
                    }
                }
                assert forall|k: Seq<u8>| front.contains(k) implies keys.contains(k) by {
                    let i = choose|i: int| 0 <= i < front.len() && front[i] == k;
                    assert(keys[i] == k);
                }
                assert(keys[keys.len() - 1] == keys.last());
            }
        }
        if !(convert_entries(m, keys) is Some) {
            if m.dom().finite() && m.dom().contains(keys.last()) && valid_utf8(keys.last()) {
                if convert_entries(m, front) is None {
                    let i = choose|i: int| !(0 <= i < front.len() ==> m.dom().contains(#[trigger] front[i])
                        && valid_utf8(front[i]) && spec_convert(m[front[i]]) is Some);
                    assert(keys[i] == front[i]);
                } else {
                    assert(spec_convert(m[keys[keys.len() - 1]]) is None);
                }
            } else {
                assert(keys[keys.len() - 1] == keys.last());
            }
        }
    }
}

/// Converting a sequence: it succeeds if and only if every value converts,
/// and then gives the converted values in order.
pub proof fn lemma_convert_seq(s: Seq<BView>)
    ensures
        convert_seq(s) is Some <==> forall|i: int| 0 <= i < s.len() ==> #[trigger] spec_convert(s[i]) is Some,
        convert_seq(s) matches Some(js) ==> js.len() == s.len()
            && forall|i: int| 0 <= i < s.len() ==> Some(#[trigger] js[i]) == spec_convert(s[i]),
    decreases s.len(),
{
    if s.len() > 0 {
        let front = s.drop_last();
        lemma_convert_seq(front);
        assert forall|i: int| 0 <= i < front.len() implies #[trigger] front[i] == s[i] by {}
        if convert_seq(s) is Some {
            let js = convert_seq(s).unwrap();
            let fj = convert_seq(front).unwrap();
            assert(js == fj.push(spec_convert(s.last()).unwrap()));
            assert forall|i: int| 0 <= i < s.len() implies #[trigger] spec_convert(s[i]) is Some
                && Some(js[i]) == spec_convert(s[i]) by {
                if i < s.len() - 1 {
                    assert(front[i] == s[i]);
                } else {
                    assert(s[i] == s.last());
                }
            }
        }
        if convert_seq(s) is None {
            if convert_seq(front) is None {
                let i = choose|i: int| !(0 <= i < front.len() ==> #[trigger] spec_convert(front[i]) is Some);
                assert(spec_convert(s[i]) is None);
            } else {
                assert(spec_convert(s[s.len() - 1]) is None);
            }
        }
    }
}

/// The values of a list, one by one.
pub proof fn lemma_list_view(s: Seq<BencodeValue>)
    ensures
        list_view(s).len() == s.len(),
        forall|i: int| 0 <= i < s.len() ==> #[trigger] list_view(s)[i] == bview(s[i]),
        list_wf(s) ==> forall|i: int| 0 <= i < s.len() ==> value_wf(#[trigger] s[i]),
    decreases s.len(),
{
    if s.len() > 0 {
        lemma_list_view(s.drop_last());
        if list_wf(s) {
            assert forall|i: int| 0 <= i < s.len() implies value_wf(#[trigger] s[i]) by {
                if i < s.len() - 1 {
                    assert(s.drop_last()[i] == s[i]);
                }
            }
        }
    }
}

/// The values of a JSON array, one by one.
pub proof fn lemma_jlist_view(s: Seq<JsonValue>)
    ensures
        jlist_view(s).len() == s.len(),
        forall|i: int| 0 <= i < s.len() ==> #[trigger] jlist_view(s)[i] == jview(s[i]),
    decreases s.len(),
{
    if s.len() > 0 {
        lemma_jlist_view(s.drop_last());
    }
}

/// Well-formed entries have distinct keys and well-formed values.
pub proof fn lemma_entries_wf(s: Seq<(Vec<u8>, BencodeValue)>)
    requires
        entries_wf(s),
    ensures
        forall|i: int, j: int| 0 <= i < j < s.len() ==> #[trigger] s[i].0@ != #[trigger] s[j].0@,
        forall|i: int| 0 <= i < s.len() ==> value_wf(#[trigger] s[i].1),
    decreases s.len(),
{
    if s.len() > 0 {
        lemma_entries_wf(s.drop_last());
        assert forall|i: int, j: int| 0 <= i < j < s.len() implies #[trigger] s[i].0@ != #[trigger] s[j].0@ by {
            if j < s.len() - 1 {
                assert(s.drop_last()[i] == s[i] && s.drop_last()[j] == s[j]);
            }
        }
        assert forall|i: int| 0 <= i < s.len() implies value_wf(#[trigger] s[i].1) by {
            if i < s.len() - 1 {
                assert(s.drop_last()[i] == s[i]);
            }
        }
    }
}

/// A key is in the map of some object entries if and only if some entry
/// has it; where no later entry has it too, its value is that entry's.
pub proof fn lemma_jentries_view(s: Seq<(String, JsonValue)>, k: Seq<u8>)
    ensures
        jentries_view(s).dom().contains(k) <==> exists|i: int| 0 <= i < s.len() && #[trigger] encode_utf8(s[i].0@) == k,
    decreases s.len(),
{
    if s.len() > 0 {
        let t = s.drop_last();
        lemma_jentries_view(t, k);
        if encode_utf8(s.last().0@) != k {
            assert forall|i: int| 0 <= i < t.len() && #[trigger] encode_utf8(t[i].0@) == k implies encode_utf8(s[i].0@) == k by {
                assert(t[i] == s[i]);
            }
            assert forall|i: int| 0 <= i < s.len() && #[trigger] encode_utf8(s[i].0@) == k implies i < t.len() && encode_utf8(t[i].0@) == k by {
                assert(t[i] == s[i]);
            }
        } else {
            assert(encode_utf8(s[s.len() - 1].0@) == k);
        }
    }
}

/// The value of a key in the map of object entries is that of the last
/// entry with the key.
pub proof fn lemma_jentries_view_last(s: Seq<(String, JsonValue)>, i: int)
    requires
        0 <= i < s.len(),
        forall|j: int| i < j < s.len() ==> #[trigger] encode_utf8(s[j].0@) != encode_utf8(s[i].0@),
    ensures
        jentries_view(s).dom().contains(encode_utf8(s[i].0@)),
        jentries_view(s)[encode_utf8(s[i].0@)] == jview(s[i].1),
    decreases s.len(),
{
    let t = s.drop_last();
    if i < s.len() - 1 {
        assert(encode_utf8(s[s.len() - 1].0@) != encode_utf8(s[i].0@));
        assert forall|j: int| i < j < t.len() implies #[trigger] encode_utf8(t[j].0@) != encode_utf8(t[i].0@) by {
            assert(t[j] == s[j]);
        }
        lemma_jentries_view_last(t, i);
    }
}

/// A dictionary converts, if at all, to the map of its converted values.
pub proof fn lemma_convert_dict(m: Map<Seq<u8>, BView>)
    requires
        m.dom().finite(),
    ensures
        spec_convert(BView::Dict(m)) is Some <==> forall|k: Seq<u8>| m.dom().contains(k)
            ==> valid_utf8(k) && #[trigger] spec_convert(m[k]) is Some,
        spec_convert(BView::Dict(m)) matches Some(j) ==> j == JView::Object(Map::new(|k: Seq<u8>| m.dom().contains(k),
            |k: Seq<u8>| spec_convert(m[k]).unwrap())),
{
    let ks = dom_keys(m);
    m.dom().lemma_to_seq_to_set_id();
    assert forall|k: Seq<u8>| #[trigger] ks.contains(k) <==> m.dom().contains(k) by {
        assert(ks.to_set().contains(k) <==> ks.contains(k));
    }
    lemma_convert_entries(m, ks);
    if spec_convert(BView::Dict(m)) is Some {
        assert forall|k: Seq<u8>| m.dom().contains(k) implies valid_utf8(k) && #[trigger] spec_convert(m[k]) is Some by {
            assert(ks.contains(k));
            let i = choose|i: int| 0 <= i < ks.len() && ks[i] == k;
            assert(m.dom().contains(ks[i]));
        }
        let o = convert_entries(m, ks).unwrap();
        assert(o =~= Map::new(|k: Seq<u8>| m.dom().contains(k), |k: Seq<u8>| spec_convert(m[k]).unwrap()));
    } else {
        if forall|k: Seq<u8>| m.dom().contains(k) ==> valid_utf8(k) && #[trigger] spec_convert(m[k]) is Some {
            assert forall|i: int| 0 <= i < ks.len() implies m.dom().contains(#[trigger] ks[i])
                && valid_utf8(ks[i]) && spec_convert(m[ks[i]]) is Some by {
                assert(ks.contains(ks[i]));
            }
        }
    }
}

/// The JSON value of a well-formed bencode value; a byte string, at any
/// depth, that is not UTF-8 is an error.
pub fn convert_value(value: &BencodeValue) -> (res: Result<JsonValue, TorrentError>)
    requires
        value_wf(*value),
    ensures
        match res {
            Ok(j) => spec_convert(value@) == Some(j@),
            Err(e) => spec_convert(value@) is None && e == TorrentError::InvalidUtf8,
        },
    decreases value,
{
    broadcast use vstd::std_specs::vec::group_vec_axioms;
    match value {
        BencodeValue::Int(n) => Ok(JsonValue::Number(*n)),
        BencodeValue::Bytes(b) => {
            let copy = vstd::slice::slice_to_vec(b.as_slice());
            match string_from_utf8(copy) {
                Some(s) => Ok(JsonValue::String(s)),
                None => Err(TorrentError::InvalidUtf8),
            }
        },
        BencodeValue::List(items) => {
            proof {
                lemma_list_view(items@);
            }
            let ghost lv = list_view(items@);
            let mut out: Vec<JsonValue> = Vec::new();
            let mut i: usize = 0;
            while i < items.len()
                invariant
                    i <= items@.len(),
                    *value == BencodeValue::List(*items),
                    value_wf(*value),
                    lv == list_view(items@),
                    lv.len() == items@.len(),
                    forall|j: int| 0 <= j < items@.len() ==> #[trigger] lv[j] == bview(items@[j]),
                    forall|j: int| 0 <= j < items@.len() ==> value_wf(#[trigger] items@[j]),
                    out@.len() == i,
                    forall|j: int| 0 <= j < i ==> #[trigger] spec_convert(lv[j]) == Some(jview(out@[j])),
                decreases items@.len() - i,
            {
                let item = &items[i];
                match convert_value(item) {
                    Ok(j) => {
                        out.push(j);
                    },
                    Err(e) => {
                        assert(spec_convert(lv[i as int]) is None);
                        proof {
                            assert(value@ == BView::List(lv));
                            lemma_convert_seq(lv);
                        }
                        return Err(e);
                    },
                }
                i = i + 1;
            }
            proof {
                assert(value@ == BView::List(lv));
                lemma_jlist_view(out@);
                assert(jlist_view(out@) =~= Seq::new(lv.len(), |j: int| if 0 <= j < lv.len() {
                    spec_convert(lv[j]).unwrap()
                } else {
                    JView::Null
                }));
                lemma_convert_seq(lv);
                assert(convert_seq(lv).unwrap() =~= jlist_view(out@));
            }
            Ok(JsonValue::Array(out))
        },
        BencodeValue::Dict(entries) => {
            proof {
                lemma_entries_wf(entries@);
            }
            let ghost m = entries_view(entries@);
            let mut out: Vec<(String, JsonValue)> = Vec::new();
            let mut i: usize = 0;
            while i < entries.len()
                invariant
                    i <= entries@.len(),
                    *value == BencodeValue::Dict(*entries),
                    m == entries_view(entries@),
                    forall|a: int, b: int| 0 <= a < b < entries@.len() ==> #[trigger] entries@[a].0@ != #[trigger] entries@[b].0@,
                    forall|j: int| 0 <= j < entries@.len() ==> value_wf(#[trigger] entries@[j].1),
                    out@.len() == i,
                    forall|j: int| 0 <= j < i ==> #[trigger] encode_utf8(out@[j].0@) == entries@[j].0@
                        && valid_utf8(entries@[j].0@)
                        && spec_convert(bview(entries@[j].1)) == Some(jview(out@[j].1)),
                decreases entries@.len() - i,
            {
                let key = vstd::slice::slice_to_vec(entries[i].0.as_slice());
                let ghost k = entries@[i as int].0@;
                proof {
                    lemma_entries_view_last(entries@, i as int);
                }
                let name = match string_from_utf8(key) {
                    Some(s) => s,
                    None => {
                        proof {
                            assert(value@ == BView::Dict(m));
                            assert(m.dom().contains(k) && !valid_utf8(k));
                            lemma_entries_view(entries@, k);
                            lemma_convert_dict(m);
                        }
                        return Err(TorrentError::InvalidUtf8);
                    },
                };
                proof {
                    decode_utf8_encode_utf8(k);
                }
                match convert_value(&entries[i].1) {
                    Ok(j) => {
                        out.push((name, j));
                    },
                    Err(e) => {
                        proof {
                            assert(value@ == BView::Dict(m));
                            assert(m.dom().contains(k) && spec_convert(m[k]) is None);
                            lemma_entries_view(entries@, k);
                            lemma_convert_dict(m);
                        }
                        return Err(e);
                    },
                }
                i = i + 1;
            }
            proof {
                assert(value@ == BView::Dict(m));
                lemma_entries_view(entries@, Seq::empty());
                let target = Map::new(|k: Seq<u8>| m.dom().contains(k), |k: Seq<u8>| if m.dom().contains(k) {
                    spec_convert(m[k]).unwrap()
                } else {
                    JView::Null
                });
                assert forall|k: Seq<u8>| m.dom().contains(k) implies valid_utf8(k) && #[trigger] spec_convert(m[k]) is Some by {
                    lemma_entries_view(entries@, k);
                    let j = choose|j: int| 0 <= j < entries@.len() && #[trigger] entries@[j].0@ == k;
                    lemma_entries_view_last(entries@, j);
                    assert(encode_utf8(out@[j].0@) == entries@[j].0@);
                }
                assert forall|k: Seq<u8>| #[trigger] jentries_view(out@).dom().contains(k) <==> m.dom().contains(k) by {
                    lemma_entries_view(entries@, k);
                    lemma_jentries_view(out@, k);
                    if m.dom().contains(k) {
                        let j = choose|j: int| 0 <= j < entries@.len() && #[trigger] entries@[j].0@ == k;
                        assert(encode_utf8(out@[j].0@) == k);
                    }
                    if jentries_view(out@).dom().contains(k) {
                        let j = choose|j: int| 0 <= j < out@.len() && #[trigger] encode_utf8(out@[j].0@) == k;
                        assert(entries@[j].0@ == k);
                    }
                }
                assert forall|k: Seq<u8>| m.dom().contains(k) implies #[trigger] jentries_view(out@)[k] == target[k] by {
                    lemma_entries_view(entries@, k);
                    let j = choose|j: int| 0 <= j < entries@.len() && #[trigger] entries@[j].0@ == k;
                    lemma_entries_view_last(entries@, j);
                    assert forall|b: int| j < b < out@.len() implies #[trigger] encode_utf8(out@[b].0@) != encode_utf8(out@[j].0@) by {
                        assert(entries@[j].0@ != entries@[b].0@);
                    }
                    lemma_jentries_view_last(out@, j);
                }
                assert(jentries_view(out@) =~= target);
                lemma_entries_view(entries@, Seq::empty());
                lemma_convert_dict(m);
                let target2 = Map::new(|k: Seq<u8>| m.dom().contains(k), |k: Seq<u8>| spec_convert(m[k]).unwrap());
                assert(jentries_view(out@) =~= target2);
            }
            Ok(JsonValue::Object(out))
        },
    }
}


/// The value that an object's entries hold for the key whose UTF-8 bytes
/// are `key`: the last entry with that key.
pub fn json_get<'a>(entries: &'a Vec<(String, JsonValue)>, key: &[u8]) -> (res: Option<&'a JsonValue>)
    ensures
        match res {
            Some(v) => jentries_view(entries@).dom().contains(key@) && jentries_view(entries@)[key@] == v@,
            None => !jentries_view(entries@).dom().contains(key@),
        },
{
    proof {
        lemma_jentries_view(entries@, key@);
    }
    let mut i = entries.len();
    while i > 0
        invariant
            i <= entries@.len(),
            forall|j: int| i <= j < entries@.len() ==> #[trigger] encode_utf8(entries@[j].0@) != key@,
        decreases i,
    {
        i = i - 1;
        let name: &str = entries[i].0.as_str();
        if crate::bencode::bytes_eq(name.as_bytes(), key) {
            proof {
                lemma_jentries_view_last(entries@, i as int);
            }
            return Some(&entries[i].1);
        }
    }
    None
}

/// The number of a JSON number, if it fits a `u8`.
pub open spec fn ju8(j: JView) -> Option<u8> {
    match j {
        JView::Number(n) => if 0 <= n <= u8::MAX { Some(n as u8) } else { None },
        _ => None,
    }
}

/// The number of a JSON number, if it fits a `u32`.
pub open spec fn ju32(j: JView) -> Option<u32> {
    match j {
        JView::Number(n) => if 0 <= n <= u32::MAX { Some(n as u32) } else { None },
        _ => None,
    }
}

/// The number of a JSON number, if it fits a `u8`.
pub fn json_u8(j: &JsonValue) -> (res: Option<u8>)
    ensures
        res == ju8(j@),
{
    match j {
        JsonValue::Number(n) => if *n >= 0 && *n <= 0xFF { Some(*n as u8) } else { None },
        _ => None,
    }
}

/// The number of a JSON number, if it fits a `u32`.
pub fn json_u32(j: &JsonValue) -> (res: Option<u32>)
    ensures
        res == ju32(j@),
{
    match j {
        JsonValue::Number(n) => if *n >= 0 && *n <= 0xFFFF_FFFF { Some(*n as u32) } else { None },
        _ => None,
    }
}

/// Reads the bencode value at the front of `data` as JSON: byte strings
/// become text. Bytes after the value are not read.
pub fn decode_json(data: &[u8]) -> (res: Result<JsonValue, TorrentError>)
    requires
        crate::bencode::spec_bencode_decode(data@) is Some,
    ensures
        match spec_convert(crate::bencode::spec_bencode_decode(data@).unwrap()) {
            Some(j) => res is Ok && res->Ok_0@ == j,
            None => res == Err::<JsonValue, TorrentError>(TorrentError::InvalidUtf8),
        },
{
    let decoded = match crate::bencode::decode(data) {
        Ok(v) => v,
        Err(_) => vstd::pervasive::unreached(),
    };
    convert_value(&decoded)
}

} // verus!
