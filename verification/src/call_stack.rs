//! The frame interner and the stack of open calls.
//!
//! Strings and frame identities are each kept once, in the order in which they
//! were first seen; the position of an item in its table is its id, and an id
//! stays valid for the whole run. The stack holds call ids only.
use vstd::prelude::*;
use vstd::string::StringExecFns;
use hashbrown::HashMap;
use crate::interning::{
    interned, lemma_index_of_extended, lemma_index_of_unique, lemma_interned, lemma_push_contains,
};
use crate::tables::{
    string_entries, strings_new, strings_get, strings_insert, call_entries, calls_new, calls_get,
    calls_insert,
};

verus! {

/// How many names stand for inclusion calls; they take the first string ids.
pub const INCLUSION_NAMES: usize = 4;

/// The names of the inclusion calls, in the order of their string ids.
pub open spec fn inclusion_names() -> Seq<Seq<char>> {
    seq!["require"@, "require_once"@, "include"@, "include_once"@]
}

/// The identity of a frame, over string ids.
#[derive(Clone, Copy, Debug, PartialEq, Eq, Structural)]
pub enum Call {
    /// An inclusion call: the ids of its name and of the path it names.
    WithPath(usize, usize),
    /// Any other call: the id of its name.
    WithoutPath(usize),
}

/// An id together with whether its item was in the table before.
pub enum Interned<T> {
    Old(T),
    New(T),
}

impl<T> Interned<T> {
    /// The item itself, old or new.
    pub open spec fn item(self) -> T {
        match self {
            Interned::Old(t) => t,
            Interned::New(t) => t,
        }
    }
}

/// The key under which the call table files a frame identity.
pub open spec fn call_key(call: Call) -> (usize, Option<usize>) {
    match call {
        Call::WithPath(name, path) => (name, Some(path)),
        Call::WithoutPath(name) => (name, None),
    }
}

/// Whether the string ids of `call` are ids of a table of `n` strings.
pub open spec fn call_in_range(call: Call, n: int) -> bool {
    match call {
        Call::WithPath(name, path) => name < n && path < n,
        Call::WithoutPath(name) => name < n,
    }
}

/// The frame identity of a call of `name` with `path`, over a string table
/// that holds both: only an inclusion call keeps its path.
pub open spec fn classify(names: Seq<Seq<char>>, name: Seq<char>, path: Seq<char>) -> Call {
    if names.index_of(name) < INCLUSION_NAMES {
        Call::WithPath(names.index_of(name) as usize, names.index_of(path) as usize)
    } else {
        Call::WithoutPath(names.index_of(name) as usize)
    }
}

/// The string table after a call of `name` with `path` was interned: the path
/// is taken in only for an inclusion call.
pub open spec fn names_after_call(names: Seq<Seq<char>>, name: Seq<char>, path: Seq<char>) -> Seq<Seq<char>> {
    if interned(names, name).index_of(name) < INCLUSION_NAMES {
        interned(interned(names, name), path)
    } else {
        interned(names, name)
    }
}

/// How a frame is written: an inclusion call as `name(path)`, any other call
/// as its bare name.
pub open spec fn call_text(names: Seq<Seq<char>>, call: Call) -> Seq<char> {
    match call {
        Call::WithPath(name, path) => names[name as int] + seq!['('] + names[path as int] + seq![')'],
        Call::WithoutPath(name) => names[name as int],
    }
}

/// How the first `n` frames of a stack are written: root first, joined by `;`.
pub open spec fn stack_text(names: Seq<Seq<char>>, calls: Seq<Call>, stack: Seq<usize>, n: int) -> Seq<char>
    decreases n,
{
    if n <= 0 {
        Seq::empty()
    } else if n == 1 {
        call_text(names, calls[stack[0] as int])
    } else {
        stack_text(names, calls, stack, n - 1) + seq![';'] + call_text(names, calls[stack[n - 1] as int])
    }
}

/// Whether `call` is the frame identity of a call of `name` with `path` over
/// the string table `names`: it holds the id of the name and, exactly if the
/// name is an inclusion name, the id of the path.
pub open spec fn identifies(names: Seq<Seq<char>>, call: Call, name: Seq<char>, path: Seq<char>) -> bool {
    match call {
        Call::WithPath(a, b) => {
            &&& inclusion_names().contains(name)
            &&& a < names.len()
            &&& b < names.len()
            &&& names[a as int] == name
            &&& names[b as int] == path
        },
        Call::WithoutPath(a) => {
            &&& !inclusion_names().contains(name)
            &&& a < names.len()
            &&& names[a as int] == name
        },
    }
}

/// Whether `after` is `before` with one more call, of `name` with `path`,
/// opened: the tables have taken in what they did not hold, and the call id
/// on top of the stack is the id of the frame identity of the call.
pub open spec fn called(before: CallStack, after: CallStack, name: Seq<char>, path: Seq<char>) -> bool {
    &&& after.names() == names_after_call(before.names(), name, path)
    &&& after.calls() == interned(before.calls(), classify(after.names(), name, path))
    &&& after.stack() == before.stack().push(
        after.calls().index_of(classify(after.names(), name, path)) as usize,
    )
    &&& after.stack().last() < after.calls().len()
    &&& after.calls()[after.stack().last() as int] == classify(after.names(), name, path)
    &&& identifies(after.names(), after.calls()[after.stack().last() as int], name, path)
}

/// How a frame entered as `name` with `path` is written.
pub open spec fn frame_text(name: Seq<char>, path: Seq<char>) -> Seq<char> {
    if inclusion_names().contains(name) {
        name + seq!['('] + path + seq![')']
    } else {
        name
    }
}

/// The interner of strings and frame identities, with the stack of open calls.
pub struct CallStack {
    strings: HashMap<String, usize>,
    interned_string: Vec<String>,
    calls: HashMap<(usize, Option<usize>), usize>,
    interned: Vec<Call>,
    stack: Vec<usize>,
}

impl CallStack {
    /// The string table: the string of each string id.
    pub closed spec fn names(&self) -> Seq<Seq<char>> {
        Seq::new(self.interned_string@.len(), |i: int| self.interned_string@[i]@)
    }

    /// The call table: the frame identity of each call id.
    pub closed spec fn calls(&self) -> Seq<Call> {
        self.interned@
    }

    /// The open calls, outermost first.
    pub closed spec fn stack(&self) -> Seq<usize> {
        self.stack@
    }

    /// The hash maps agree with the tables.
    pub closed spec fn indexed(&self) -> bool {
        &&& forall|s: Seq<char>| #[trigger] string_entries(self.strings).contains_key(s) <==> self.names().contains(s)
        &&& forall|i: int| 0 <= i < self.names().len() ==> string_entries(self.strings)[#[trigger] self.names()[i]] == i
        &&& forall|c: Call| #[trigger] call_entries(self.calls).contains_key(call_key(c)) <==> self.calls().contains(c)
        &&& forall|i: int| 0 <= i < self.calls().len() ==> call_entries(self.calls)[call_key(#[trigger] self.calls()[i])] == i
    }

    /// Whether two states have the same tables and the same open calls.
    pub open spec fn same(&self, other: CallStack) -> bool {
        &&& self.names() == other.names()
        &&& self.calls() == other.calls()
        &&& self.stack() == other.stack()
    }

    /// What holds of the tables and the stack at all times.
    pub open spec fn wf(&self) -> bool {
        &&& self.indexed()
        &&& self.names().len() <= usize::MAX
        &&& self.calls().len() <= usize::MAX
        &&& self.names().no_duplicates()
        &&& self.calls().no_duplicates()
        &&& inclusion_names().is_prefix_of(self.names())
        &&& forall|i: int| 0 <= i < self.calls().len() ==> call_in_range(#[trigger] self.calls()[i], self.names().len() as int)
        &&& forall|k: int| 0 <= k < self.stack().len() ==> (#[trigger] self.stack()[k]) < self.calls().len()
    }

    /// An interner that knows the inclusion names and nothing else, with no call open.
    pub fn new() -> (r: CallStack)
        ensures
            r.wf(),
            r.names() == inclusion_names(),
            r.calls() == Seq::<Call>::empty(),
            r.stack() == Seq::<usize>::empty(),
    {
        let mut strings = strings_new();
        let mut interned_string: Vec<String> = Vec::new();
        let _ = strings_insert(&mut strings, "require".to_owned(), 0);
        interned_string.push("require".to_owned());
        let _ = strings_insert(&mut strings, "require_once".to_owned(), 1);
        interned_string.push("require_once".to_owned());
        let _ = strings_insert(&mut strings, "include".to_owned(), 2);
        interned_string.push("include".to_owned());
        let _ = strings_insert(&mut strings, "include_once".to_owned(), 3);
        interned_string.push("include_once".to_owned());
        let r = CallStack {
            strings,
            interned_string,
            calls: calls_new(),
            interned: Vec::new(),
            stack: Vec::with_capacity(16),
        };
        proof {
            lemma_inclusion_names_distinct();
            assert(r.names() =~= inclusion_names());
            assert(r.calls() =~= Seq::<Call>::empty());
            assert(r.stack() =~= Seq::<usize>::empty());
            assert forall|s: Seq<char>| #[trigger] string_entries(r.strings).contains_key(s) <==> r.names().contains(s) by {
                if r.names().contains(s) {
                    let i = choose|i: int| 0 <= i < r.names().len() && r.names()[i] == s;
                    assert(0 <= i < 4);
                }
                if string_entries(r.strings).contains_key(s) {
                    assert(s == r.names()[0] || s == r.names()[1] || s == r.names()[2] || s == r.names()[3]);
                }
            }
        }
        r
    }

    /// No call is open.
    pub fn is_empty(&self) -> (b: bool)
        ensures
            b == (self.stack().len() == 0),
    {
        self.stack.len() == 0
    }

    /// The open calls, outermost first.
    pub fn current(&self) -> (s: &[usize])
        ensures
            s@ == self.stack(),
    {
        self.stack.as_slice()
    }

    /// Closes the innermost open call, if there is one.
    pub fn pop(&mut self)
        requires
            old(self).wf(),
        ensures
            final(self).wf(),
            final(self).names() == old(self).names(),
            final(self).calls() == old(self).calls(),
            final(self).stack() == (if old(self).stack().len() > 0 {
                old(self).stack().drop_last()
            } else {
                old(self).stack()
            }),
    {
        let _ = self.stack.pop();
        proof {
            assert(self.names() =~= old(self).names());
            assert(self.calls() == old(self).calls());
            assert(self.stack() =~= (if old(self).stack().len() > 0 {
                old(self).stack().drop_last()
            } else {
                old(self).stack()
            }));
            assert(self.indexed());
        }
    }

    /// Interns a string: its id, and whether the table held it before.
    pub fn intern_str(&mut self, string: &str) -> (r: Interned<usize>)
        requires
            old(self).wf(),
        ensures
            final(self).wf(),
            final(self).names() == interned(old(self).names(), string@),
            final(self).calls() == old(self).calls(),
            final(self).stack() == old(self).stack(),
            r is Old <==> old(self).names().contains(string@),
            r is New ==> r.item() == old(self).names().len(),
            r.item() < final(self).names().len(),
            final(self).names()[r.item() as int] == string@,
            r.item() as int == final(self).names().index_of(string@),
    {
        match strings_get(&self.strings, string) {
            Some(id) => {
                proof {
                    let i = choose|i: int| 0 <= i < self.names().len() && self.names()[i] == string@;
                    assert(string_entries(self.strings)[self.names()[i]] == i);
                    lemma_index_of_unique(self.names(), i);
                }
                Interned::Old(id)
            },
            None => {
                let index: usize = self.interned_string.len();
                self.interned_string.push(string.to_owned());
                let _ = strings_insert(&mut self.strings, string.to_owned(), index);
                proof {
                    let before = old(self).names();
                    assert(self.names() =~= before.push(string@));
                    lemma_interned(before, string@);
                    assert forall|s: Seq<char>| #[trigger] string_entries(self.strings).contains_key(s) <==> self.names().contains(s) by {
                        lemma_push_contains(before, string@, s);
                        assert(string_entries(old(self).strings).contains_key(s) <==> before.contains(s));
                    }
                    assert forall|i: int| 0 <= i < self.names().len() implies string_entries(self.strings)[#[trigger] self.names()[i]] == i by {
                        if i < before.len() {
                            assert(before[i] == self.names()[i]);
                            assert(before.contains(before[i]));
                            assert(string_entries(old(self).strings)[before[i]] == i);
                        }
                    }
                    assert(self.indexed());
                    assert(self.interned_string@.len() == self.interned_string.len());
                    assert(inclusion_names() =~= self.names().subrange(0, inclusion_names().len() as int)) by {
                        assert(inclusion_names() =~= before.subrange(0, inclusion_names().len() as int));
                    }
                    assert(self.calls() == old(self).calls());
                    assert(self.stack() == old(self).stack());
                    lemma_index_of_unique(self.names(), index as int);
                }
                Interned::New(index)
            },
        }
    }

    /// Interns a frame identity and returns its call id. An identity marked
    /// new is one that the table cannot hold yet, and is appended unseen.
    pub fn intern(&mut self, call: Interned<Call>) -> (r: usize)
        requires
            old(self).wf(),
            call_in_range(call.item(), old(self).names().len() as int),
            call is New ==> !old(self).calls().contains(call.item()),
        ensures
            final(self).wf(),
            final(self).names() == old(self).names(),
            final(self).calls() == interned(old(self).calls(), call.item()),
            final(self).stack() == old(self).stack(),
            r < final(self).calls().len(),
            final(self).calls()[r as int] == call.item(),
            r as int == final(self).calls().index_of(call.item()),
    {
        let new: Call = match call {
            Interned::New(t) => t,
            Interned::Old(t) => {
                let key = key_of(t);
                match calls_get(&self.calls, &key) {
                    Some(idx) => {
                        proof {
                            assert(call_entries(self.calls).contains_key(call_key(t)));
                            let i = choose|i: int| 0 <= i < self.calls().len() && self.calls()[i] == t;
                            assert(call_entries(self.calls)[call_key(self.calls()[i])] == i);
                            lemma_index_of_unique(self.calls(), i);
                        }
                        return idx;
                    },
                    None => {
                        assert(!call_entries(self.calls).contains_key(call_key(t)));
                        t
                    },
                }
            },
        };
        let index: usize = self.interned.len();
        self.interned.push(new);
        let _ = calls_insert(&mut self.calls, key_of(new), index);
        proof {
            let before = old(self).calls();
            assert(self.names() =~= old(self).names());
            assert(self.calls() =~= before.push(new));
            lemma_interned(before, new);
            assert forall|c: Call| #[trigger] call_entries(self.calls).contains_key(call_key(c)) <==> self.calls().contains(c) by {
                lemma_push_contains(before, new, c);
                assert(call_entries(old(self).calls).contains_key(call_key(c)) <==> before.contains(c));
                lemma_call_key_injective(c, new);
            }
            assert forall|i: int| 0 <= i < self.calls().len() implies call_entries(self.calls)[call_key(#[trigger] self.calls()[i])] == i by {
                if i < before.len() {
                    assert(before[i] == self.calls()[i]);
                    assert(before.contains(before[i]));
                    lemma_call_key_injective(before[i], new);
                    assert(call_entries(old(self).calls)[call_key(before[i])] == i);
                }
            }
            assert(self.indexed());
            assert(self.interned@.len() == self.interned.len());
            assert(self.stack() == old(self).stack());
            assert forall|i: int| 0 <= i < self.calls().len() implies call_in_range(
                #[trigger] self.calls()[i],
                self.names().len() as int,
            ) by {
                if i < before.len() {
                    assert(before[i] == self.calls()[i]);
                }
            }
            lemma_index_of_unique(self.calls(), index as int);
        }
        index
    }

    /// Opens a call of `name` with `path`: interns the frame and pushes its
    /// call id. The frame keeps the path only if `name` is an inclusion name.
    pub fn call(&mut self, name: &str, path: &str)
        requires
            old(self).wf(),
        ensures
            final(self).wf(),
            called(*old(self), *final(self), name@, path@),
            call_text(final(self).names(), final(self).calls()[final(self).stack().last() as int])
                == frame_text(name@, path@),
    {
        let ghost names0 = self.names();
        let new_or_not: Interned<Call> = match self.intern_str(name) {
            Interned::Old(st) => {
                if st < INCLUSION_NAMES {
                    match self.intern_str(path) {
                        Interned::Old(other) => Interned::Old(Call::WithPath(st, other)),
                        Interned::New(new) => {
                            assert(!self.calls().contains(Call::WithPath(st, new))) by {
                                lemma_out_of_range_is_absent(self.calls(), Call::WithPath(st, new), new as int);
                            }
                            Interned::New(Call::WithPath(st, new))
                        },
                    }
                } else {
                    Interned::Old(Call::WithoutPath(st))
                }
            },
            Interned::New(new) => {
                assert(!self.calls().contains(Call::WithoutPath(new))) by {
                    lemma_out_of_range_is_absent(self.calls(), Call::WithoutPath(new), new as int);
                }
                Interned::New(Call::WithoutPath(new))
            },
        };
        proof {
            let names1 = interned(names0, name@);
            lemma_interned(names0, name@);
            lemma_interned(names1, path@);
            lemma_inclusion_names_distinct();
            let st = names1.index_of(name@);
            assert(0 <= st < names1.len() && names1[st] == name@);
            assert(self.names()[st] == name@);
            lemma_index_of_unique(self.names(), st);
            lemma_is_inclusion(self.names(), st);
            assert(new_or_not.item() == classify(self.names(), name@, path@));
            reveal_strlit("(");
            reveal_strlit(")");
        }
        let idx = self.intern(new_or_not);
        self.stack.push(idx);
        proof {
            assert(self.names() =~= names_after_call(names0, name@, path@));
            assert(self.stack().last() == idx);
        }
    }

    /// Writes a frame to the end of `buffer`: `name(path)` for an inclusion
    /// call, the bare name for any other.
    pub fn write_call(&self, call: Call, buffer: &mut String)
        requires
            self.wf(),
            call_in_range(call, self.names().len() as int),
        ensures
            final(buffer)@ == old(buffer)@ + call_text(self.names(), call),
    {
        proof {
            reveal_strlit("(");
            reveal_strlit(")");
        }
        match call {
            Call::WithoutPath(idx) => {
                assert(self.names()[idx as int] == self.interned_string@[idx as int]@);
                buffer.append(self.interned_string[idx].as_str());
            },
            Call::WithPath(name, path) => {
                assert(self.names()[name as int] == self.interned_string@[name as int]@);
                assert(self.names()[path as int] == self.interned_string@[path as int]@);
                buffer.append(self.interned_string[name].as_str());
                buffer.append("(");
                buffer.append(self.interned_string[path].as_str());
                buffer.append(")");
                assert(buffer@ =~= old(buffer)@ + call_text(self.names(), call));
            },
        }
    }

    /// Writes the frames of a stack to the end of `buffer`, root first and
    /// joined by `;`.
    pub fn write_name(&self, indices: &[usize], buffer: &mut String)
        requires
            self.wf(),
            forall|k: int| 0 <= k < indices@.len() ==> (#[trigger] indices@[k]) < self.calls().len(),
        ensures
            final(buffer)@ == old(buffer)@ + stack_text(
                self.names(),
                self.calls(),
                indices@,
                indices@.len() as int,
            ),
    {
        proof {
            reveal_strlit(";");
        }
        let ghost start = buffer@;
        let n: usize = indices.len();
        let mut i: usize = 0;
        assert(buffer@ =~= start + stack_text(self.names(), self.calls(), indices@, 0));
        while i < n
            invariant
                self.wf(),
                n == indices@.len(),
                i <= n,
                forall|k: int| 0 <= k < indices@.len() ==> (#[trigger] indices@[k]) < self.calls().len(),
                ";"@ == seq![';'],
                buffer@ == start + stack_text(self.names(), self.calls(), indices@, i as int),
            decreases n - i,
        {
            if i > 0 {
                buffer.append(";");
            }
            let id: usize = indices[i];
            assert(call_in_range(self.calls()[id as int], self.names().len() as int));
            self.write_call(self.interned[id], buffer);
            i = i + 1;
            assert(buffer@ =~= start + stack_text(self.names(), self.calls(), indices@, i as int));
        }
    }

    /// The folded form of a stack: its frames, root first and joined by `;`.
    pub fn frames(&self, stack: &[usize]) -> (text: String)
        requires
            self.wf(),
            forall|k: int| 0 <= k < stack@.len() ==> (#[trigger] stack@[k]) < self.calls().len(),
        ensures
            text@ == stack_text(self.names(), self.calls(), stack@, stack@.len() as int),
    {
        let mut text = String::new();
        self.write_name(stack, &mut text);
        assert(text@ =~= stack_text(self.names(), self.calls(), stack@, stack@.len() as int));
        text
    }
}

/// The key of a frame identity in the call table.
fn key_of(call: Call) -> (key: (usize, Option<usize>))
    ensures
        key == call_key(call),
{
    match call {
        Call::WithPath(name, path) => (name, Some(path)),
        Call::WithoutPath(name) => (name, None),
    }
}

/// Frame identities with the same key are the same.
pub proof fn lemma_call_key_injective(a: Call, b: Call)
    ensures
        call_key(a) == call_key(b) <==> a == b,
{
}

/// A frame identity that names a string id beyond the string table is in no
/// call table over that string table.
pub proof fn lemma_out_of_range_is_absent(calls: Seq<Call>, call: Call, n: int)
    requires
        forall|i: int| 0 <= i < calls.len() ==> call_in_range(#[trigger] calls[i], n),
        !call_in_range(call, n),
    ensures
        !calls.contains(call),
{
    if calls.contains(call) {
        let i = choose|i: int| 0 <= i < calls.len() && calls[i] == call;
        assert(call_in_range(calls[i], n));
    }
}

/// A frame identity is written as the call that it identifies: `name(path)`
/// if the name is an inclusion name, and else the bare name, whatever the path.
pub proof fn lemma_identity_renders(names: Seq<Seq<char>>, call: Call, name: Seq<char>, path: Seq<char>)
    requires
        identifies(names, call, name, path),
    ensures
        call_text(names, call) == frame_text(name, path),
        call is WithPath <==> inclusion_names().contains(name),
{
}

/// A string is an inclusion name exactly if its id is one of the first ids.
pub proof fn lemma_is_inclusion(names: Seq<Seq<char>>, id: int)
    requires
        names.no_duplicates(),
        inclusion_names().is_prefix_of(names),
        0 <= id < names.len(),
    ensures
        id < INCLUSION_NAMES <==> inclusion_names().contains(names[id]),
{
    lemma_inclusion_names_distinct();
    if id < INCLUSION_NAMES {
        assert(inclusion_names()[id] == names[id]);
    }
    if inclusion_names().contains(names[id]) {
        let j = choose|j: int| 0 <= j < inclusion_names().len() && inclusion_names()[j] == names[id];
        assert(names[j] == inclusion_names()[j]);
    }
}


/// The four inclusion names differ from one another.
pub proof fn lemma_inclusion_names_distinct()
    ensures
        inclusion_names().no_duplicates(),
        inclusion_names().len() == 4,
{
    reveal_strlit("require");
    reveal_strlit("require_once");
    reveal_strlit("include");
    reveal_strlit("include_once");
    let n = inclusion_names();
    assert(n[0].len() == 7 && n[1].len() == 12 && n[2].len() == 7 && n[3].len() == 12);
    assert(n[0][0] == 'r' && n[2][0] == 'i');
    assert(n[1][0] == 'r' && n[3][0] == 'i');
}

/// A frame has one call id for the whole run: when a call of `name` with
/// `path` is opened, and later, after the tables have grown in whatever way,
/// a call of the same name with the same path is opened again, both times the
/// same call id is pushed.
pub proof fn lemma_same_frame_same_id(
    first_before: CallStack,
    first_after: CallStack,
    second_before: CallStack,
    second_after: CallStack,
    name: Seq<char>,
    path: Seq<char>,
)
    requires
        first_before.wf(),
        first_after.wf(),
        second_before.wf(),
        second_after.wf(),
        called(first_before, first_after, name, path),
        first_after.names().is_prefix_of(second_before.names()),
        first_after.calls().is_prefix_of(second_before.calls()),
        called(second_before, second_after, name, path),
    ensures
        second_after.stack().last() == first_after.stack().last(),
        second_after.calls() == second_before.calls(),
        second_after.names() == second_before.names(),
{
    let names0 = first_before.names();
    let names1 = first_after.names();
    let names2 = second_before.names();
    let names3 = second_after.names();
    lemma_interned(names0, name);
    lemma_interned(interned(names0, name), path);
    lemma_index_of_extended(interned(names0, name), names1, name);
    lemma_index_of_extended(names1, names2, name);
    assert(interned(names2, name) == names2);
    let inclusion = names1.index_of(name) < INCLUSION_NAMES;
    if inclusion {
        assert(names1.contains(path));
        lemma_index_of_extended(names1, names2, path);
    }
    assert(names3 == names2);
    let call = classify(names1, name, path);
    assert(classify(names3, name, path) == call);
    lemma_interned(first_before.calls(), call);
    lemma_index_of_extended(first_after.calls(), second_before.calls(), call);
    assert(second_after.calls() == second_before.calls());
}

/// Two call ids that stand for the same frame identity are the same id.
pub proof fn lemma_one_id_per_frame(tracker: CallStack, a: int, b: int)
    requires
        tracker.wf(),
        0 <= a < tracker.calls().len(),
        0 <= b < tracker.calls().len(),
        tracker.calls()[a] == tracker.calls()[b],
    ensures
        a == b,
{
}

} // verus!
