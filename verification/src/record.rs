//! The records of an execution log: one `ActionContext` for each action that
//! the build ran, with the files it read and wrote and their digests.

use vstd::prelude::*;
use vstd::std_specs::cmp::PartialEqSpecImpl;
use crate::hex::{bytes_of_hex, from_hex, hex_of, is_hex, is_lower_hex, to_hex};

verus! {

/// A SHA-256 hash: thirty-two bytes.
#[derive(Debug, Clone)]
pub struct Sha256(pub [u8; 32]);

/// What identifies the exact bytes of a file: their hash, their number, and
/// the name of the hash function.
#[derive(Debug, Clone)]
pub struct Digest {
    pub hash: Sha256,
    pub size_bytes: u64,
    pub hash_function_name: String,
}

/// A file that an action read or wrote.
#[derive(Debug, Clone)]
pub struct Item {
    pub path: String,
    pub digest: Digest,
}

/// One variable of an action's environment.
#[derive(Debug, Clone)]
pub struct EnvVar {
    pub name: String,
    pub value: String,
}

/// One action of a build: its environment, its inputs, the outputs it
/// declares and the outputs it wrote.
#[derive(Debug, Clone)]
pub struct ActionContext {
    pub environment_variables: Vec<EnvVar>,
    pub inputs: Vec<Item>,
    pub listed_outputs: Vec<String>,
    pub remotable: bool,
    pub cacheable: bool,
    pub actual_outputs: Vec<Item>,
}

/// The mathematical value of a `Digest`.
pub struct DigestView {
    pub hash: Seq<u8>,
    pub size_bytes: u64,
    pub hash_function_name: Seq<char>,
}

/// The mathematical value of an `Item`.
pub struct ItemView {
    pub path: Seq<char>,
    pub digest: DigestView,
}

/// The mathematical value of an `EnvVar`.
pub struct EnvVarView {
    pub name: Seq<char>,
    pub value: Seq<char>,
}

/// The mathematical value of an `ActionContext`.
pub struct ActionView {
    pub environment_variables: Seq<EnvVarView>,
    pub inputs: Seq<ItemView>,
    pub listed_outputs: Seq<Seq<char>>,
    pub remotable: bool,
    pub cacheable: bool,
    pub actual_outputs: Seq<ItemView>,
}

impl View for Sha256 {
    type V = Seq<u8>;

    open spec fn view(&self) -> Seq<u8> {
        self.0@
    }
}

impl View for Digest {
    type V = DigestView;

    open spec fn view(&self) -> DigestView {
        DigestView {
            hash: self.hash@,
            size_bytes: self.size_bytes,
            hash_function_name: self.hash_function_name@,
        }
    }
}

impl View for Item {
    type V = ItemView;

    open spec fn view(&self) -> ItemView {
        ItemView { path: self.path@, digest: self.digest@ }
    }
}

impl View for EnvVar {
    type V = EnvVarView;

    open spec fn view(&self) -> EnvVarView {
        EnvVarView { name: self.name@, value: self.value@ }
    }
}

/// The values of a list of items, in order.
pub open spec fn items_view(items: Seq<Item>) -> Seq<ItemView> {
    Seq::new(items.len(), |i: int| items[i]@)
}

/// The values of a list of variables, in order.
pub open spec fn env_view(vars: Seq<EnvVar>) -> Seq<EnvVarView> {
    Seq::new(vars.len(), |i: int| vars[i]@)
}

/// The values of a list of strings, in order.
pub open spec fn strings_view(strings: Seq<String>) -> Seq<Seq<char>> {
    Seq::new(strings.len(), |i: int| strings[i]@)
}

impl View for ActionContext {
    type V = ActionView;

    open spec fn view(&self) -> ActionView {
        ActionView {
            environment_variables: env_view(self.environment_variables@),
            inputs: items_view(self.inputs@),
            listed_outputs: strings_view(self.listed_outputs@),
            remotable: self.remotable,
            cacheable: self.cacheable,
            actual_outputs: items_view(self.actual_outputs@),
        }
    }
}

impl Sha256 {
    /// The hash as sixty-four lower-case hexadecimal digits.
    pub fn to_hex(&self) -> (s: String)
        ensures
            s@ == hex_of(self@),
            s@.len() == 64,
            forall|i: int| 0 <= i < 64 ==> is_lower_hex(#[trigger] s@[i]),
    {
        to_hex(self.0.as_slice())
    }

    /// Reads a hash from sixty-four hexadecimal digits, in either case.
    pub fn from_hex(s: &str) -> (r: Option<Sha256>)
        ensures
            r is Some <==> s@.len() == 64 && is_hex(s@),
            r matches Some(h) ==> h@ == bytes_of_hex(s@),
    {
        match from_hex(s) {
            Some(bytes) => {
                if bytes.len() != 32 {
                    return None;
                }
                let mut hash = [0u8; 32];
                let mut i: usize = 0;
                while i < 32
                    invariant
                        i <= 32,
                        bytes@.len() == 32,
                        forall|j: int| 0 <= j < i ==> hash@[j] == bytes@[j],
                    decreases 32 - i,
                {
                    hash[i] = bytes[i];
                    i += 1;
                }
                assert(hash@ =~= bytes@);
                Some(Sha256(hash))
            },
            None => None,
        }
    }
}

impl PartialEq for Sha256 {
    fn eq(&self, other: &Sha256) -> (r: bool) {
        let mut i: usize = 0;
        while i < 32
            invariant
                i <= 32,
                forall|j: int| 0 <= j < i ==> self.0@[j] == other.0@[j],
            decreases 32 - i,
        {
            if self.0[i] != other.0[i] {
                return false;
            }
            i += 1;
        }
        assert(self.0@ =~= other.0@);
        true
    }
}

impl PartialEqSpecImpl for Sha256 {
    open spec fn obeys_eq_spec() -> bool {
        true
    }

    open spec fn eq_spec(&self, other: &Sha256) -> bool {
        self@ == other@
    }
}

impl Eq for Sha256 {

}

impl PartialEq for Digest {
    fn eq(&self, other: &Digest) -> (r: bool) {
        self.hash == other.hash && self.size_bytes == other.size_bytes
            && self.hash_function_name == other.hash_function_name
    }
}

impl PartialEqSpecImpl for Digest {
    open spec fn obeys_eq_spec() -> bool {
        true
    }

    open spec fn eq_spec(&self, other: &Digest) -> bool {
        self@ == other@
    }
}

impl Eq for Digest {

}

impl PartialEq for Item {
    fn eq(&self, other: &Item) -> (r: bool) {
        self.path == other.path && self.digest == other.digest
    }
}

impl PartialEqSpecImpl for Item {
    open spec fn obeys_eq_spec() -> bool {
        true
    }

    open spec fn eq_spec(&self, other: &Item) -> bool {
        self@ == other@
    }
}

impl Eq for Item {

}

impl PartialEq for EnvVar {
    fn eq(&self, other: &EnvVar) -> (r: bool) {
        self.name == other.name && self.value == other.value
    }
}

impl PartialEqSpecImpl for EnvVar {
    open spec fn obeys_eq_spec() -> bool {
        true
    }

    open spec fn eq_spec(&self, other: &EnvVar) -> bool {
        self@ == other@
    }
}

impl Eq for EnvVar {

}

/// Whether two lists of items hold the same values in the same order.
pub fn same_items(a: &Vec<Item>, b: &Vec<Item>) -> (r: bool)
    ensures
        r == (items_view(a@) == items_view(b@)),
{
    if a.len() != b.len() {
        assert(items_view(a@).len() != items_view(b@).len());
        return false;
    }
    let mut i: usize = 0;
    while i < a.len()
        invariant
            i <= a.len(),
            a.len() == b.len(),
            forall|j: int| 0 <= j < i ==> a@[j]@ == b@[j]@,
        decreases a.len() - i,
    {
        if a[i] != b[i] {
            assert(items_view(a@)[i as int] != items_view(b@)[i as int]);
            return false;
        }
        i += 1;
    }
    assert(items_view(a@) =~= items_view(b@));
    true
}

/// Whether two lists of variables hold the same values in the same order.
pub fn same_env(a: &Vec<EnvVar>, b: &Vec<EnvVar>) -> (r: bool)
    ensures
        r == (env_view(a@) == env_view(b@)),
{
    if a.len() != b.len() {
        assert(env_view(a@).len() != env_view(b@).len());
        return false;
    }
    let mut i: usize = 0;
    while i < a.len()
        invariant
            i <= a.len(),
            a.len() == b.len(),
            forall|j: int| 0 <= j < i ==> a@[j]@ == b@[j]@,
        decreases a.len() - i,
    {
        if a[i] != b[i] {
            assert(env_view(a@)[i as int] != env_view(b@)[i as int]);
            return false;
        }
        i += 1;
    }
    assert(env_view(a@) =~= env_view(b@));
    true
}

/// Whether two lists of strings hold the same text in the same order.
pub fn same_strings(a: &Vec<String>, b: &Vec<String>) -> (r: bool)
    ensures
        r == (strings_view(a@) == strings_view(b@)),
{
    if a.len() != b.len() {
        assert(strings_view(a@).len() != strings_view(b@).len());
        return false;
    }
    let mut i: usize = 0;
    while i < a.len()
        invariant
            i <= a.len(),
            a.len() == b.len(),
            forall|j: int| 0 <= j < i ==> a@[j]@ == b@[j]@,
        decreases a.len() - i,
    {
        if a[i] != b[i] {
            assert(strings_view(a@)[i as int] != strings_view(b@)[i as int]);
            return false;
        }
        i += 1;
    }
    assert(strings_view(a@) =~= strings_view(b@));
    true
}

impl PartialEq for ActionContext {
    fn eq(&self, other: &ActionContext) -> (r: bool) {
        same_env(&self.environment_variables, &other.environment_variables) && same_items(
            &self.inputs,
            &other.inputs,
        ) && same_strings(&self.listed_outputs, &other.listed_outputs) && self.remotable
            == other.remotable && self.cacheable == other.cacheable && same_items(
            &self.actual_outputs,
            &other.actual_outputs,
        )
    }
}

impl PartialEqSpecImpl for ActionContext {
    open spec fn obeys_eq_spec() -> bool {
        true
    }

    open spec fn eq_spec(&self, other: &ActionContext) -> bool {
        self@ == other@
    }
}

impl Eq for ActionContext {

}

/// The first of `items` at `path`.
pub open spec fn first_item(items: Seq<Item>, path: Seq<char>) -> Option<Item>
    decreases items.len(),
{
    if items.len() == 0 {
        None
    } else if items[0].path@ == path {
        Some(items[0])
    } else {
        first_item(items.drop_first(), path)
    }
}

/// The first of `vars` that is named `name`.
pub open spec fn first_var(vars: Seq<EnvVar>, name: Seq<char>) -> Option<EnvVar>
    decreases vars.len(),
{
    if vars.len() == 0 {
        None
    } else if vars[0].name@ == name {
        Some(vars[0])
    } else {
        first_var(vars.drop_first(), name)
    }
}

/// Finds the first of `items` at `path`.
pub fn find_item<'a>(items: &'a Vec<Item>, path: &str) -> (found: Option<&'a Item>)
    ensures
        match found {
            Some(item) => first_item(items@, path@) == Some(*item),
            None => first_item(items@, path@) is None,
        },
{
    let wanted = path.to_owned();
    let mut i: usize = 0;
    assert(items@.skip(0) =~= items@);
    while i < items.len()
        invariant
            i <= items.len(),
            wanted@ == path@,
            first_item(items@, path@) == first_item(items@.skip(i as int), path@),
        decreases items.len() - i,
    {
        proof {
            let rest = items@.skip(i as int);
            assert(rest[0] == items@[i as int]);
            assert(rest.drop_first() =~= items@.skip(i + 1));
        }
        if items[i].path == wanted {
            return Some(&items[i]);
        }
        i += 1;
    }
    assert(items@.skip(i as int).len() == 0);
    None
}

/// Finds the first of `vars` that is named `name`.
pub fn find_var<'a>(vars: &'a Vec<EnvVar>, name: &str) -> (found: Option<&'a EnvVar>)
    ensures
        match found {
            Some(var) => first_var(vars@, name@) == Some(*var),
            None => first_var(vars@, name@) is None,
        },
{
    let wanted = name.to_owned();
    let mut i: usize = 0;
    assert(vars@.skip(0) =~= vars@);
    while i < vars.len()
        invariant
            i <= vars.len(),
            wanted@ == name@,
            first_var(vars@, name@) == first_var(vars@.skip(i as int), name@),
        decreases vars.len() - i,
    {
        proof {
            let rest = vars@.skip(i as int);
            assert(rest[0] == vars@[i as int]);
            assert(rest.drop_first() =~= vars@.skip(i + 1));
        }
        if vars[i].name == wanted {
            return Some(&vars[i]);
        }
        i += 1;
    }
    assert(vars@.skip(i as int).len() == 0);
    None
}

impl ActionContext {
    /// The first variable of the environment that is named `name`.
    pub fn env_var(&self, name: &str) -> (found: Option<&EnvVar>)
        ensures
            match found {
                Some(var) => first_var(self.environment_variables@, name@) == Some(*var),
                None => first_var(self.environment_variables@, name@) is None,
            },
    {
        find_var(&self.environment_variables, name)
    }

    /// The first input at `path`.
    pub fn input(&self, path: &str) -> (found: Option<&Item>)
        ensures
            match found {
                Some(item) => first_item(self.inputs@, path@) == Some(*item),
                None => first_item(self.inputs@, path@) is None,
            },
    {
        find_item(&self.inputs, path)
    }

    /// The first output that was written at `path`.
    pub fn output(&self, path: &str) -> (found: Option<&Item>)
        ensures
            match found {
                Some(item) => first_item(self.actual_outputs@, path@) == Some(*item),
                None => first_item(self.actual_outputs@, path@) is None,
            },
    {
        find_item(&self.actual_outputs, path)
    }
}

} // verus!
