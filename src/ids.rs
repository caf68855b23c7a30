//! Identifiers, keys, labels and liveness statuses of configuration items.
use vstd::prelude::*;

verus! {

/// Whether `text` matches the regular expression `pattern`; a pattern that
/// does not compile matches nothing.
pub uninterp spec fn regex_is_match(pattern: Seq<char>, text: Seq<char>) -> bool;

/// Relies on `regex::Regex::new` and `Regex::is_match`: whether `text`
/// matches `pattern`, which depends on the two strings alone.
#[verifier::external_body]
fn regex_matches(pattern: &str, text: &str) -> (r: bool)
    ensures
        r == regex_is_match(pattern@, text@),
{
    match regex::Regex::new(pattern) {
        Ok(re) => re.is_match(text),
        Err(_) => false,
    }
}

/// Relies on `uuid::Uuid::new_v4` and `Uuid::as_u128`: a fresh random UUID.
/// Nothing is promised of its value.
#[verifier::external_body]
fn random_uuid() -> (r: u128) {
    uuid::Uuid::new_v4().as_u128()
}

/// Pattern of restream and input keys.
pub const KEY_PATTERN: &'static str = "^[a-z0-9_-]{1,20}$";

/// Pattern of labels.
pub const LABEL_PATTERN: &'static str = "^[^,\\n\\t\\r\\f\\v]{1,70}$";

/// Whether `s` is accepted as a restream or input key.
pub open spec fn key_valid(s: Seq<char>) -> bool {
    s.len() > 0 && regex_is_match(KEY_PATTERN@, s)
}

/// Whether `s` is accepted as a label.
pub open spec fn label_valid(s: Seq<char>) -> bool {
    s.len() > 0 && regex_is_match(LABEL_PATTERN@, s)
}

/// ID of a restream. Once assigned, it never changes.
#[derive(Clone, Copy, Debug, PartialEq, Eq, Structural, Hash)]
pub struct RestreamId(pub u128);

/// ID of an input.
#[derive(Clone, Copy, Debug, PartialEq, Eq, Structural, Hash)]
pub struct InputId(pub u128);

/// ID of an input endpoint.
#[derive(Clone, Copy, Debug, PartialEq, Eq, Structural, Hash)]
pub struct EndpointId(pub u128);

/// ID of an output.
#[derive(Clone, Copy, Debug, PartialEq, Eq, Structural, Hash)]
pub struct OutputId(pub u128);

/// ID of a mixin.
#[derive(Clone, Copy, Debug, PartialEq, Eq, Structural, Hash)]
pub struct MixinId(pub u128);

impl RestreamId {
    /// Generates a new random ID.
    pub fn random() -> (r: Self) {
        RestreamId(random_uuid())
    }
}

impl InputId {
    /// Generates a new random ID.
    pub fn random() -> (r: Self) {
        InputId(random_uuid())
    }
}

impl EndpointId {
    /// Generates a new random ID.
    pub fn random() -> (r: Self) {
        EndpointId(random_uuid())
    }
}

impl OutputId {
    /// Generates a new random ID.
    pub fn random() -> (r: Self) {
        OutputId(random_uuid())
    }
}

impl MixinId {
    /// Generates a new random ID.
    pub fn random() -> (r: Self) {
        MixinId(random_uuid())
    }
}

/// Key of a restream identifying it, and used to form its endpoint URLs.
#[derive(Clone, Debug)]
pub struct RestreamKey(pub(crate) String);

/// Key of an input used to form its endpoint URLs.
#[derive(Clone, Debug)]
pub struct InputKey(pub(crate) String);

/// Label of a restream, an input endpoint or an output.
#[derive(Clone, Debug)]
pub struct Label(pub(crate) String);

impl View for RestreamKey {
    type V = Seq<char>;

    closed spec fn view(&self) -> Seq<char> {
        self.0@
    }
}

impl View for InputKey {
    type V = Seq<char>;

    closed spec fn view(&self) -> Seq<char> {
        self.0@
    }
}

impl View for Label {
    type V = Seq<char>;

    closed spec fn view(&self) -> Seq<char> {
        self.0@
    }
}

impl RestreamKey {
    /// Creates a key if the value is non-empty and matches
    /// `^[a-z0-9_-]{1,20}$`.
    pub fn new(val: &str) -> (r: Option<Self>)
        ensures
            r is Some <==> key_valid(val@),
            r matches Some(k) ==> k@ == val@,
    {
        if val.unicode_len() > 0 && regex_matches(KEY_PATTERN, val) {
            Some(RestreamKey(val.to_owned()))
        } else {
            None
        }
    }

    /// The characters of this key.
    pub fn as_str(&self) -> (r: &str)
        ensures
            r@ == self@,
    {
        self.0.as_str()
    }

    /// An equal copy of this key.
    pub fn copied(&self) -> (r: Self)
        ensures
            r@ == self@,
    {
        RestreamKey(self.0.clone())
    }

    /// Whether this key is the same as `other`.
    pub fn same_as(&self, other: &Self) -> (r: bool)
        ensures
            r == (self@ == other@),
    {
        self.0 == other.0
    }
}

impl InputKey {
    /// Creates a key out of a literal known to be a valid key.
    pub(crate) fn known(val: &str) -> (r: Self)
        ensures
            r@ == val@,
    {
        InputKey(val.to_owned())
    }

    /// Creates a key if the value is non-empty and matches
    /// `^[a-z0-9_-]{1,20}$`.
    pub fn new(val: &str) -> (r: Option<Self>)
        ensures
            r is Some <==> key_valid(val@),
            r matches Some(k) ==> k@ == val@,
    {
        if val.unicode_len() > 0 && regex_matches(KEY_PATTERN, val) {
            Some(InputKey(val.to_owned()))
        } else {
            None
        }
    }

    /// The characters of this key.
    pub fn as_str(&self) -> (r: &str)
        ensures
            r@ == self@,
    {
        self.0.as_str()
    }

    /// An equal copy of this key.
    pub fn copied(&self) -> (r: Self)
        ensures
            r@ == self@,
    {
        InputKey(self.0.clone())
    }

    /// Whether this key is the same as `other`.
    pub fn same_as(&self, other: &Self) -> (r: bool)
        ensures
            r == (self@ == other@),
    {
        self.0 == other.0
    }
}

impl Label {
    /// Creates a label if the value is non-empty and matches
    /// `^[^,\n\t\r\f\v]{1,70}$`.
    pub fn new(val: &str) -> (r: Option<Self>)
        ensures
            r is Some <==> label_valid(val@),
            r matches Some(l) ==> l@ == val@,
    {
        if val.unicode_len() > 0 && regex_matches(LABEL_PATTERN, val) {
            Some(Label(val.to_owned()))
        } else {
            None
        }
    }

    /// The characters of this label.
    pub fn as_str(&self) -> (r: &str)
        ensures
            r@ == self@,
    {
        self.0.as_str()
    }

    /// An equal copy of this label.
    pub fn copied(&self) -> (r: Self)
        ensures
            r@ == self@,
    {
        Label(self.0.clone())
    }
}

/// An equal copy of an optional label.
pub fn copy_label(l: &Option<Label>) -> (r: Option<Label>)
    ensures
        r is Some <==> l is Some,
        r matches Some(x) ==> x@ == l->Some_0@,
{
    match l {
        Some(x) => Some(x.copied()),
        None => None,
    }
}

/// Status indicating availability of an input endpoint, an output, or a
/// mixin.
#[derive(Clone, Copy, Debug, PartialEq, Eq, Structural, Hash)]
pub enum Status {
    /// Inactive: no operations are performed and no media traffic flows.
    Offline,
    /// Initializing: media traffic doesn't yet flow as expected.
    Initializing,
    /// Active: media traffic flows as expected.
    Online,
    /// Failed recently.
    Unstable,
}

impl Default for Status {
    fn default() -> (r: Self)
        ensures
            r == Status::Offline,
    {
        Status::Offline
    }
}

/// Kind of password.
#[derive(Clone, Copy, Debug, PartialEq, Eq, Structural)]
pub enum PasswordKind {
    /// Password of the main application.
    Main,
    /// Password of the single-output application.
    Output,
}

} // verus!
