//! Messages exchanged between simulation elements.
use vstd::prelude::*;
use vstd::utf8::encode_utf8;
use indexmap::IndexMap;
use crate::graph::{keys_unique, attr_get, attr_set, attrs_view, AttrsModel};

verus! {

#[verifier::external_type_specification]
#[verifier::external_body]
#[verifier::reject_recursive_types(K)]
#[verifier::reject_recursive_types(V)]
#[verifier::reject_recursive_types(S)]
pub struct ExIndexMap<K, V, S>(IndexMap<K, V, S>);

/// The entries of a string map, in insertion order.
pub uninterp spec fn map_items(m: IndexMap<String, String>) -> AttrsModel;

/// Relies on indexmap's `IndexMap::new`: an empty map.
#[verifier::external_body]
pub fn map_new() -> (r: IndexMap<String, String>)
    ensures
        map_items(r) == Seq::<(Seq<char>, Seq<char>)>::empty(),
{
    IndexMap::new()
}

/// Relies on indexmap's `IndexMap::get`: the value stored for the key, keys being unique.
#[verifier::external_body]
pub fn map_get(m: &IndexMap<String, String>, k: &str) -> (r: Option<String>)
    ensures
        r matches Some(v) ==> attr_get(map_items(*m), k@) == Some(v@),
        r is None ==> attr_get(map_items(*m), k@) is None,
{
    m.get(k).cloned()
}

/// Relies on indexmap's `IndexMap::insert`: an existing key keeps its place and takes the new
/// value; a new key goes last.
#[verifier::external_body]
pub fn map_insert(m: &mut IndexMap<String, String>, k: String, v: String)
    ensures
        map_items(*final(m)) == attr_set(map_items(*old(m)), k@, v@),
        keys_unique(map_items(*final(m))),
{
    m.insert(k, v);
}

/// Relies on indexmap's `IntoIterator` for `IndexMap`: the entries in order.
#[verifier::external_body]
pub fn map_entries(m: &IndexMap<String, String>) -> (r: Vec<(String, String)>)
    ensures
        attrs_view(r@) == map_items(*m),
{
    m.clone().into_iter().collect()
}

/// Relies on indexmap's `Clone` for `IndexMap`: the same entries in the same order.
#[verifier::external_body]
pub fn map_clone(m: &IndexMap<String, String>) -> (r: IndexMap<String, String>)
    ensures
        map_items(r) == map_items(*m),
{
    m.clone()
}

pub struct RpcModel {
    pub data: Seq<char>,
    pub uid: u64,
    pub headers: AttrsModel,
}

/// A message: application payload, trace id, and ordered headers whose keys are unique
/// (`wf`); setting a key that is already there keeps its place.
pub struct Rpc {
    pub data: String,
    pub uid: u64,
    pub headers: IndexMap<String, String>,
}

impl View for Rpc {
    type V = RpcModel;

    open spec fn view(&self) -> RpcModel {
        RpcModel { data: self.data@, uid: self.uid, headers: map_items(self.headers) }
    }
}

/// Length of the UTF-8 encoding of `s`.
pub open spec fn byte_len(s: Seq<char>) -> nat {
    encode_utf8(s).len()
}

/// Sum of the byte lengths of the keys and values of `h`.
pub open spec fn headers_bytes(h: AttrsModel) -> nat
    decreases h.len(),
{
    if h.len() == 0 {
        0
    } else {
        headers_bytes(h.drop_last()) + byte_len(h.last().0) + byte_len(h.last().1)
    }
}

impl Rpc {
    /// Header keys are unique.
    pub open spec fn wf(&self) -> bool {
        keys_unique(self@.headers)
    }
}

impl RpcModel {
    /// The value of header `k`, if set.
    pub open spec fn header(self, k: Seq<char>) -> Option<Seq<char>> {
        attr_get(self.headers, k)
    }
}

impl Rpc {
    /// A message with payload `data`, trace id `uid` and no headers.
    pub fn new(data: &str, uid: u64) -> (r: Rpc)
        ensures
            r@ == (RpcModel { data: data@, uid, headers: Seq::empty() }),
            r.wf(),
    {
        let r = Rpc { data: data.to_owned(), uid, headers: map_new() };
        assert(r@.headers =~= Seq::empty());
        r
    }

    /// A message whose `src` header names its sender.
    pub fn new_with_src(data: &str, src: &str, uid: u64) -> (r: Rpc)
        ensures
            r@ == (RpcModel { data: data@, uid, headers: seq![("src"@, src@)] }),
            r.wf(),
    {
        let mut r = Rpc::new(data, uid);
        r.set_header("src", src.to_owned());
        proof {
            crate::graph::lemma_attr_index(Seq::empty(), "src"@);
        }
        assert(r@.headers =~= seq![("src"@, src@)]);
        r
    }

    /// A message whose `src` and `dest` headers name its sender and its receiver.
    pub fn new_with_src_dest(data: &str, src: &str, dst: &str, uid: u64) -> (r: Rpc)
        ensures
            r@ == (RpcModel { data: data@, uid, headers: seq![("src"@, src@), ("dest"@, dst@)] }),
            r.wf(),
    {
        let mut r = Rpc::new_with_src(data, src, uid);
        proof {
            reveal_strlit("src");
            reveal_strlit("dest");
            crate::graph::lemma_attr_index(seq![("src"@, src@)], "dest"@);
            assert("src"@.len() != "dest"@.len());
            assert(seq![("src"@, src@)][0].0 != "dest"@);
        }
        r.set_header("dest", dst.to_owned());
        assert(r@.headers =~= seq![("src"@, src@), ("dest"@, dst@)]);
        r
    }

    /// Size in bytes of the payload and of every header key and value.
    pub fn len(&self) -> (r: usize)
        requires
            byte_len(self.data@) + headers_bytes(self@.headers) <= usize::MAX,
        ensures
            r == byte_len(self.data@) + headers_bytes(self@.headers),
    {
        let entries = map_entries(&self.headers);
        let ghost hv = attrs_view(entries@);
        let mut size: usize = self.data.as_str().len();
        let mut i: usize = 0;
        while i < entries.len()
            invariant
                i <= entries@.len(),
                hv == attrs_view(entries@),
                hv == self@.headers,
                size == byte_len(self.data@) + headers_bytes(hv.take(i as int)),
                byte_len(self.data@) + headers_bytes(hv) <= usize::MAX,
            decreases entries@.len() - i,
        {
            assert(hv.take(i + 1).drop_last() =~= hv.take(i as int));
            proof {
                lemma_headers_bytes_prefix(hv, i as int + 1);
            }
            size = size + entries[i].0.as_str().len();
            size = size + entries[i].1.as_str().len();
            i += 1;
        }
        assert(hv.take(i as int) =~= hv);
        size
    }

    /// The value of header `key`, if set.
    pub fn header(&self, key: &str) -> (r: Option<String>)
        ensures
            r matches Some(s) ==> self@.header(key@) == Some(s@),
            r is None ==> self@.header(key@) is None,
    {
        map_get(&self.headers, key)
    }

    /// Sets header `key` to `value`, in place when present.
    pub fn set_header(&mut self, key: &str, value: String)
        ensures
            final(self)@ == (RpcModel { headers: attr_set(old(self)@.headers, key@, value@), ..old(self)@ }),
            old(self).wf() ==> final(self).wf(),
    {
        map_insert(&mut self.headers, key.to_owned(), value);
    }

    pub fn duplicate(&self) -> (r: Rpc)
        ensures
            r@ == self@,
            self.wf() ==> r.wf(),
    {
        Rpc { data: self.data.clone(), uid: self.uid, headers: map_clone(&self.headers) }
    }
}

impl Clone for Rpc {
    fn clone(&self) -> (r: Rpc)
        ensures
            r@ == self@,
    {
        self.duplicate()
    }
}

proof fn lemma_headers_bytes_prefix(h: AttrsModel, n: int)
    requires
        0 <= n <= h.len(),
    ensures
        headers_bytes(h.take(n)) <= headers_bytes(h),
    decreases h.len(),
{
    if n < h.len() {
        assert(h.drop_last().take(n) =~= h.take(n));
        lemma_headers_bytes_prefix(h.drop_last(), n);
    } else {
        assert(h.take(n) =~= h);
    }
}

} // verus!
