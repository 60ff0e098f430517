//! The records that the dashboard keeps: todos, info items, docker rows and
//! the persisted snapshot.
use vstd::prelude::*;

verus! {

/// A todo: an id (a hyphenated UUID when made by [`new_todo`]) and its text.
#[derive(Debug)]
pub struct Todo {
    pub id: String,
    pub text: String,
}

/// An entry of the info stack, shaped like a [`Todo`].
#[derive(Debug)]
pub struct InfoItem {
    pub id: String,
    pub text: String,
}

/// One running container as `docker stats` reports it.
#[derive(Debug)]
pub struct DockerSvc {
    pub name: String,
    pub cpu: String,
}

/// What is written to the state file: the todos and the info stack.
#[derive(Debug)]
pub struct Persisted {
    pub todos: Vec<Todo>,
    pub info: Vec<InfoItem>,
}

impl Clone for Todo {
    fn clone(&self) -> (r: Self)
        ensures
            r == *self,
    {
        Todo { id: self.id.clone(), text: self.text.clone() }
    }
}

impl Clone for InfoItem {
    fn clone(&self) -> (r: Self)
        ensures
            r == *self,
    {
        InfoItem { id: self.id.clone(), text: self.text.clone() }
    }
}

impl Clone for DockerSvc {
    fn clone(&self) -> (r: Self)
        ensures
            r == *self,
    {
        DockerSvc { name: self.name.clone(), cpu: self.cpu.clone() }
    }
}

impl Default for DockerSvc {
    fn default() -> (r: Self)
        ensures
            r.name@ == Seq::<char>::empty(),
            r.cpu@ == Seq::<char>::empty(),
    {
        DockerSvc { name: String::new(), cpu: String::new() }
    }
}

impl Default for Persisted {
    fn default() -> (r: Self)
        ensures
            r.todos@ == Seq::<Todo>::empty(),
            r.info@ == Seq::<InfoItem>::empty(),
    {
        Persisted { todos: Vec::new(), info: Vec::new() }
    }
}

/// An entry of a list that the API addresses by id or by 1-based position.
pub trait Keyed: Sized {
    /// The entry's id.
    spec fn key(&self) -> Seq<char>;

    fn key_str(&self) -> (r: &str)
        ensures
            r@ == self.key(),
    ;
}

impl Keyed for Todo {
    open spec fn key(&self) -> Seq<char> {
        self.id@
    }

    fn key_str(&self) -> (r: &str) {
        self.id.as_str()
    }
}

impl Keyed for InfoItem {
    open spec fn key(&self) -> Seq<char> {
        self.id@
    }

    fn key_str(&self) -> (r: &str) {
        self.id.as_str()
    }
}

/// Whether `c` is a lowercase hexadecimal digit.
pub open spec fn is_lower_hex(c: char) -> bool {
    ('0' <= c && c <= '9') || ('a' <= c && c <= 'f')
}

/// Whether `s` is a version-4 UUID in uuid's hyphenated lowercase form,
/// such as `67e55044-10b1-426f-9247-bb680e5fe0c8`.
pub open spec fn is_uuid_v4_text(s: Seq<char>) -> bool {
    &&& s.len() == 36
    &&& s[8] == '-' && s[13] == '-' && s[18] == '-' && s[23] == '-'
    &&& forall|i: int|
        0 <= i < 36 && i != 8 && i != 13 && i != 18 && i != 23 ==> is_lower_hex(#[trigger] s[i])
    &&& s[14] == '4'
    &&& (s[19] == '8' || s[19] == '9' || s[19] == 'a' || s[19] == 'b')
}

/// uuid's `Uuid::new_v4`, written out by its `Display` impl (`to_string`).
/// The value is random; the contract claims only its shape: a version-4
/// UUID in hyphenated lowercase hex.
#[verifier::external_body]
fn new_uuid_text() -> (r: String)
    ensures
        is_uuid_v4_text(r@),
{
    uuid::Uuid::new_v4().to_string()
}

/// A fresh todo holding `text`, with a random UUID as its id.
pub fn new_todo(text: String) -> (t: Todo)
    ensures
        t.text == text,
        is_uuid_v4_text(t.id@),
{
    Todo { id: new_uuid_text(), text }
}

/// A fresh info item holding `text`, with a random UUID as its id.
pub fn new_info_item(text: String) -> (i: InfoItem)
    ensures
        i.text == text,
        is_uuid_v4_text(i.id@),
{
    InfoItem { id: new_uuid_text(), text }
}

} // verus!
