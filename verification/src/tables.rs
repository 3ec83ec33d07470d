//! The hash tables behind the interners: `hashbrown` maps, reached through a
//! handful of trusted declarations. Each map is modelled by the mathematical
//! map of its entries; nothing here depends on how entries are hashed or laid out.
use vstd::prelude::*;
use hashbrown::HashMap;

verus! {

/// `hashbrown::HashMap`, opaque to the verifier.
#[verifier::external_type_specification]
#[verifier::external_body]
#[verifier::reject_recursive_types(K)]
#[verifier::reject_recursive_types(V)]
#[verifier::reject_recursive_types(S)]
pub struct ExHashMap<K, V, S>(hashbrown::HashMap<K, V, S>);

/// The default hasher state of `hashbrown`, opaque to the verifier.
#[verifier::external_type_specification]
#[verifier::external_body]
pub struct ExDefaultHashBuilder(hashbrown::hash_map::DefaultHashBuilder);

/// The entries of a string table: which id each string has.
pub uninterp spec fn string_entries(m: HashMap<String, usize>) -> Map<Seq<char>, usize>;

/// `HashMap::new`: a map without entries.
#[verifier::external_body]
pub(crate) fn strings_new() -> (m: HashMap<String, usize>)
    ensures
        (string_entries(m) == Map::<Seq<char>, usize>::empty()),
{
    HashMap::new()
}

/// `HashMap::get` with a borrowed string as key: the value stored under a key
/// with the same characters, if the map holds one.
#[verifier::external_body]
pub(crate) fn strings_get(m: &HashMap<String, usize>, key: &str) -> (found: Option<usize>)
    ensures
        found == (if string_entries(*m).contains_key(key@) {
            Some(string_entries(*m)[key@])
        } else {
            None
        }),
{
    m.get(key).copied()
}

/// `HashMap::insert`: afterwards the key maps to the value and every other
/// entry is as before; the value that the key had before is returned.
#[verifier::external_body]
pub(crate) fn strings_insert(m: &mut HashMap<String, usize>, key: String, value: usize) -> (prev: Option<usize>)
    ensures
        string_entries(*final(m)) == string_entries(*old(m)).insert(key@, value),
        prev == (if string_entries(*old(m)).contains_key(key@) {
            Some(string_entries(*old(m))[key@])
        } else {
            None
        }),
{
    m.insert(key, value)
}

/// The entries of a call table: which id each frame identity has. A frame
/// identity is keyed by the id of its name and, where it has one, of its path.
pub uninterp spec fn call_entries(m: HashMap<(usize, Option<usize>), usize>) -> Map<(usize, Option<usize>), usize>;

/// `HashMap::new`: a map without entries.
#[verifier::external_body]
pub(crate) fn calls_new() -> (m: HashMap<(usize, Option<usize>), usize>)
    ensures
        (call_entries(m) == Map::<(usize, Option<usize>), usize>::empty()),
{
    HashMap::new()
}

/// `HashMap::get`: the value stored under the key, if the map holds one.
#[verifier::external_body]
pub(crate) fn calls_get(m: &HashMap<(usize, Option<usize>), usize>, key: &(usize, Option<usize>)) -> (found: Option<usize>)
    ensures
        found == (if call_entries(*m).contains_key(*key) {
            Some(call_entries(*m)[*key])
        } else {
            None
        }),
{
    m.get(key).copied()
}

/// `HashMap::insert`: afterwards the key maps to the value and every other
/// entry is as before; the value that the key had before is returned.
#[verifier::external_body]
pub(crate) fn calls_insert(m: &mut HashMap<(usize, Option<usize>), usize>, key: (usize, Option<usize>), value: usize) -> (prev: Option<usize>)
    ensures
        call_entries(*final(m)) == call_entries(*old(m)).insert(key, value),
        prev == (if call_entries(*old(m)).contains_key(key) {
            Some(call_entries(*old(m))[key])
        } else {
            None
        }),
{
    m.insert(key, value)
}

/// The entries of a stack table: which slot each sequence of call ids has.
pub uninterp spec fn stack_entries(m: HashMap<Vec<usize>, usize>) -> Map<Seq<usize>, usize>;

/// `HashMap::new`: a map without entries.
#[verifier::external_body]
pub(crate) fn stacks_new() -> (m: HashMap<Vec<usize>, usize>)
    ensures
        (stack_entries(m) == Map::<Seq<usize>, usize>::empty()),
{
    HashMap::new()
}

/// `HashMap::get` with a borrowed slice as key: the value stored under a key
/// with the same elements, if the map holds one.
#[verifier::external_body]
pub(crate) fn stacks_get(m: &HashMap<Vec<usize>, usize>, key: &[usize]) -> (found: Option<usize>)
    ensures
        found == (if stack_entries(*m).contains_key(key@) {
            Some(stack_entries(*m)[key@])
        } else {
            None
        }),
{
    m.get(key).copied()
}

/// `HashMap::insert`: afterwards the key maps to the value and every other
/// entry is as before; the value that the key had before is returned.
#[verifier::external_body]
pub(crate) fn stacks_insert(m: &mut HashMap<Vec<usize>, usize>, key: Vec<usize>, value: usize) -> (prev: Option<usize>)
    ensures
        stack_entries(*final(m)) == stack_entries(*old(m)).insert(key@, value),
        prev == (if stack_entries(*old(m)).contains_key(key@) {
            Some(stack_entries(*old(m))[key@])
        } else {
            None
        }),
{
    m.insert(key, value)
}

} // verus!
