//! A reading: what an API reported, as `key=value` pairs held in a
//! `BTreeMap<String, String>`. Its model is the map from the characters of
//! each key to the characters of its value.
use vstd::prelude::*;
use std::collections::BTreeMap;

verus! {

/// The contents of a reading.
pub open spec fn reading_view(m: &BTreeMap<String, String>) -> Map<Seq<char>, Seq<char>> {
    m.deep_view()
}

/// `BTreeMap::get`: the value stored under a key equal to `key`, if there is
/// one. `String` keys are equal exactly when their characters are.
#[verifier::external_body]
pub fn reading_get<'a>(m: &'a BTreeMap<String, String>, key: &String) -> (r: Option<&'a String>)
    ensures
        match r {
            Some(v) => reading_view(m).contains_key(key@) && reading_view(m)[key@] == v@,
            None => !reading_view(m).contains_key(key@),
        },
{
    m.get(key)
}

/// `BTreeMap::insert`: afterwards the key maps to the value, replacing
/// whatever it mapped to before, and every other key is untouched.
#[verifier::external_body]
pub fn reading_insert(m: &mut BTreeMap<String, String>, key: String, value: String)
    ensures
        reading_view(final(m)) == reading_view(old(m)).insert(key@, value@),
{
    m.insert(key, value);
}

/// `BTreeMap::new`: an empty reading.
pub fn reading_new() -> (m: BTreeMap<String, String>)
    ensures
        reading_view(&m) == Map::<Seq<char>, Seq<char>>::empty(),
{
    let m: BTreeMap<String, String> = BTreeMap::new();
    proof {
        vstd::std_specs::btree::lemma_btree_map_deepview_dom(m);
        assert(m@.dom() =~= Set::<String>::empty());
        assert(m.deep_view().dom() =~= Set::<Seq<char>>::empty());
        assert(reading_view(&m) =~= Map::<Seq<char>, Seq<char>>::empty());
    }
    m
}

} // verus!
