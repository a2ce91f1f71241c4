use std::collections::hash_map::DefaultHasher;
use std::fmt::Display;
use std::hash::{Hash, Hasher};
use vstd::prelude::*;

verus! {

/// std's `Hash::hash` on a `DefaultHasher`: feeds `data` into `state`. What
/// it feeds is up to the `Hash` impl of `T`, so nothing is stated of the
/// state that it leaves.
#[verifier::external_body]
fn feed<T: Hash>(data: &T, state: &mut DefaultHasher) {
    data.hash(state);
}

/// The key that std's default hasher gives to `data`.
fn hash<T: Hash>(data: &T) -> (key: u64)
    ensures
        exists|fed: Seq<Seq<u8>>| key == #[trigger] digest(fed),
{
    let mut hasher = DefaultHasher::new();
    feed(data, &mut hasher);
    let key = hasher.finish();
    assert(key == digest(hasher@));
    key
}

/// The key that std's default hasher ends with when `fed` is all that was
/// written to it, write by write.
pub open spec fn digest(fed: Seq<Seq<u8>>) -> u64 {
    <DefaultHasher as vstd::std_specs::hash::DefaultHasherAdditionalSpecFns>::spec_finish(fed)
}

/// The characters of `text`.
fn chars_of(text: &str) -> (chars: Vec<char>)
    ensures
        chars@ == text@,
{
    let n = text.unicode_len();
    let mut chars: Vec<char> = Vec::new();
    let mut i: usize = 0;
    while i < n
        invariant
            n == text@.len(),
            i <= n,
            chars@ == text@.take(i as int),
        decreases n - i,
    {
        chars.push(text.get_char(i));
        assert(text@.take(i + 1) =~= text@.take(i as int).push(text@[i as int]));
        i += 1;
    }
    assert(text@.take(i as int) =~= text@);
    chars
}

/// A caller-supplied value that names a node.
///
/// A label has a stable identity key, by which the store finds its node, and
/// a text, by which a diagram shows it. Both are functions of the label's
/// value alone.
pub trait Label: Sized {
    /// The identity key of this label.
    spec fn key(&self) -> u64;

    /// The text that stands for this label in a diagram.
    spec fn text(&self) -> Seq<char>;

    /// Computes the identity key.
    fn hash(&self) -> (key: u64)
        ensures
            key == self.key(),
    ;

    /// Computes the display text.
    fn show(&self) -> (text: Vec<char>)
        ensures
            text@ == self.text(),
    ;
}

impl Label for char {
    open spec fn key(&self) -> u64 {
        *self as u64
    }

    open spec fn text(&self) -> Seq<char> {
        seq![*self]
    }

    fn hash(&self) -> (key: u64) {
        *self as u64
    }

    fn show(&self) -> (text: Vec<char>) {
        let mut text: Vec<char> = Vec::new();
        text.push(*self);
        text
    }
}

impl Label for () {
    open spec fn key(&self) -> u64 {
        0
    }

    open spec fn text(&self) -> Seq<char> {
        seq!['(', ')']
    }

    fn hash(&self) -> (key: u64) {
        0
    }

    fn show(&self) -> (text: Vec<char>) {
        let mut text: Vec<char> = Vec::new();
        text.push('(');
        text.push(')');
        assert(text@ =~= seq!['(', ')']);
        text
    }
}

/// A value of any type made into a label: it carries the key and the text
/// that it was given when it was made.
#[derive(Debug, Clone, PartialEq)]
pub struct Keyed<T> {
    pub value: T,
    key: u64,
    text: Vec<char>,
}

impl<T> Keyed<T> {
    /// The value that the label stands for.
    pub closed spec fn inner(&self) -> T {
        self.value
    }

    /// The label that stands for `value` under the key that std's default
    /// hasher gives it, and shows as std's `to_string` writes it. Two values
    /// get one key where their `Hash` impl feeds the hasher the same.
    pub fn of(value: T) -> (label: Self) where T: Hash + Display
        ensures
            label.inner() == value,
            exists|shown: String| #[trigger]
                vstd::string::to_string_from_display_ensures::<T>(&value, shown) && label.text()
                    == shown@,
    {
        let key = hash(&value);
        let shown = value.to_string();
        let text = chars_of(shown.as_str());
        Keyed { value, key, text }
    }

    /// The label that stands for `value` under `key` and shows as `text`.
    pub fn new(value: T, key: u64, text: Vec<char>) -> (label: Self)
        ensures
            label.inner() == value,
            label.key() == key,
            label.text() == text@,
    {
        Keyed { value, key, text }
    }
}

impl<T> Label for Keyed<T> {
    closed spec fn key(&self) -> u64 {
        self.key
    }

    closed spec fn text(&self) -> Seq<char> {
        self.text@
    }

    fn hash(&self) -> (key: u64) {
        self.key
    }

    fn show(&self) -> (text: Vec<char>) {
        let mut text: Vec<char> = Vec::new();
        let mut i: usize = 0;
        while i < self.text.len()
            invariant
                i <= self.text@.len(),
                text@ == self.text@.take(i as int),
            decreases self.text@.len() - i,
        {
            text.push(self.text[i]);
            assert(self.text@.take(i + 1) =~= self.text@.take(i as int).push(self.text@[i as int]));
            i += 1;
        }
        assert(self.text@.take(i as int) =~= self.text@);
        text
    }
}

} // verus!
