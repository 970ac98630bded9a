use vstd::prelude::*;
use vstd::string::*;
use std::marker::PhantomData;

use crate::text::concat3;

verus! {

/// Stable identity of one installed module instance.
///
/// Its view is the text of the identifier.
#[derive(Debug, Clone, PartialEq, Eq, PartialOrd, Ord, Hash)]
pub struct ModuleInstanceId(String);

impl View for ModuleInstanceId {
    type V = Seq<char>;

    closed spec fn view(&self) -> Seq<char> {
        self.0@
    }
}

/// The texts of a sequence of identifiers.
pub open spec fn id_texts(ids: Seq<ModuleInstanceId>) -> Seq<Seq<char>> {
    ids.map_values(|id: ModuleInstanceId| id@)
}

impl ModuleInstanceId {
    /// An identifier with the given text.
    pub fn new(value: &str) -> (id: Self)
        ensures
            id@ == value@,
    {
        ModuleInstanceId(String::from_str(value))
    }

    /// An identifier that takes ownership of `value`.
    pub fn from_string(value: String) -> (id: Self)
        ensures
            id@ == value@,
    {
        ModuleInstanceId(value)
    }

    /// The identifier's text.
    pub fn as_str(&self) -> (text: &str)
        ensures
            text@ == self@,
    {
        self.0.as_str()
    }

    /// Whether two identifiers have the same text.
    pub fn same_as(&self, other: &ModuleInstanceId) -> (same: bool)
        ensures
            same == (self@ == other@),
    {
        self.0 == other.0
    }

    /// Whether this identifier's text is `text`.
    pub fn has_text(&self, text: &str) -> (same: bool)
        ensures
            same == (self@ == text@),
    {
        let other = String::from_str(text);
        self.0 == other
    }

    /// A copy of this identifier.
    pub fn duplicate(&self) -> (copy: Self)
        ensures
            copy@ == self@,
    {
        ModuleInstanceId(self.0.clone())
    }
}

/// The text that `Debug` writes for a string: the string in double quotes,
/// with the characters that `Debug` escapes escaped.
pub uninterp spec fn debug_quoted(text: Seq<char>) -> Seq<char>;

/// Calls `<str as Debug>::fmt` on `text`; the result is named by
/// `debug_quoted`.
#[verifier::external_body]
fn quote(text: &str) -> (quoted: String)
    ensures
        quoted@ == debug_quoted(text@),
{
    format!("{:?}", text)
}

/// Opaque binding target for one installed module instance.
pub struct ModuleHandle<Module> {
    id: ModuleInstanceId,
    owner: u64,
    module: PhantomData<Module>,
}

/// Identity of a module handle: the module instance and the composition
/// that issued the handle.
pub trait ModuleHandleIdentity {
    fn module_instance_id(&self) -> &ModuleInstanceId;

    fn composition_owner(&self) -> u64;
}

impl<Module> ModuleHandle<Module> {
    /// A handle for the module installed as `id` by composition `owner`.
    pub(crate) fn new(id: ModuleInstanceId, owner: u64) -> (handle: Self)
        ensures
            handle.spec_id() == id@,
            handle.spec_owner() == owner,
    {
        ModuleHandle { id, owner, module: PhantomData }
    }

    /// The text of the identifier of the handled module.
    pub closed spec fn spec_id(&self) -> Seq<char> {
        self.id@
    }

    /// The composition that issued the handle.
    pub closed spec fn spec_owner(&self) -> u64 {
        self.owner
    }

    /// The handle as `Debug` writes it: the identifier of the handled
    /// module, the rest left out.
    pub fn debug_text(&self) -> (text: String)
        ensures
            text@ == "ModuleHandle { id: ModuleInstanceId("@ + debug_quoted(self.spec_id()) + "), .. }"@,
    {
        let quoted = quote(self.id.as_str());
        concat3("ModuleHandle { id: ModuleInstanceId(", quoted.as_str(), "), .. }")
    }

    /// The identifier of the handled module.
    pub fn id(&self) -> (id: &ModuleInstanceId)
        ensures
            id@ == self.spec_id(),
    {
        &self.id
    }
}

impl<Module> ModuleHandleIdentity for ModuleHandle<Module> {
    fn module_instance_id(&self) -> (id: &ModuleInstanceId)
        ensures
            id@ == self.spec_id(),
    {
        &self.id
    }

    fn composition_owner(&self) -> (owner: u64)
        ensures
            owner == self.spec_owner(),
    {
        self.owner
    }
}

} // verus!
