//! The output record type of the rule engine: a type tag, the matched text,
//! and an open string-keyed metadata map that callers may fill after the fact.

use vstd::prelude::*;
use vstd::string::StrSliceExecFns;

verus! {

/// The built-in token categories a caller may tag rules with.
#[derive(Debug, Clone, PartialEq, Eq, Structural)]
pub enum TokenType {
    Metadata,
    DiceRoll,
    Dialogue,
    Action,
    Ooc,
    System,
    Text,
    Unknown,
}

/// The mathematical content of a `Token`: its tag, its text, and its metadata
/// as a map in which the latest write to a key wins.
pub struct TokenModel {
    pub token_type: Seq<char>,
    pub content: Seq<char>,
    pub metadata: Map<Seq<char>, Seq<char>>,
}

/// The map described by a sequence of key/value pairs, later pairs overriding
/// earlier ones.
pub open spec fn metadata_map(entries: Seq<(String, String)>) -> Map<Seq<char>, Seq<char>>
    decreases entries.len(),
{
    if entries.len() == 0 {
        Map::empty()
    } else {
        metadata_map(entries.drop_last()).insert(entries.last().0@, entries.last().1@)
    }
}

/// A typed output span: a type tag, the matched text, and open metadata.
pub struct Token {
    pub token_type: String,
    pub content: String,
    metadata: Vec<(String, String)>,
}

impl View for Token {
    type V = TokenModel;

    closed spec fn view(&self) -> TokenModel {
        TokenModel {
            token_type: self.token_type@,
            content: self.content@,
            metadata: metadata_map(self.metadata@),
        }
    }
}

impl Token {
    /// A fresh token carries its tag and text and no metadata.
    pub fn new(token_type: String, content: String) -> (t: Token)
        ensures
            t@.token_type == token_type@,
            t@.content == content@,
            t@.metadata == Map::<Seq<char>, Seq<char>>::empty(),
    {
        Token { token_type, content, metadata: Vec::new() }
    }

    /// Records `value` under `key`, overriding any earlier value for that key.
    pub fn add_metadata(&mut self, key: String, value: String)
        ensures
            final(self)@.token_type == old(self)@.token_type,
            final(self)@.content == old(self)@.content,
            final(self)@.metadata == old(self)@.metadata.insert(key@, value@),
    {
        proof {
            assert(self.metadata@.push((key, value)).drop_last() =~= self.metadata@);
        }
        self.metadata.push((key, value));
    }

    /// The value last recorded under `key`, or `None` when the key was never
    /// written.
    pub fn get_metadata(&self, key: &str) -> (r: Option<String>)
        ensures
            match r {
                Some(v) => self@.metadata.contains_key(key@) && v@ == self@.metadata[key@],
                None => !self@.metadata.contains_key(key@),
            },
    {
        let mut i: usize = self.metadata.len();
        while i > 0
            invariant
                i <= self.metadata@.len(),
                forall|j: int| i <= j < self.metadata@.len() ==> self.metadata@[j].0@ != key@,
            decreases i,
        {
            i = i - 1;
            if str_eq(self.metadata[i].0.as_str(), key) {
                proof {
                    lemma_metadata_map_ignores_tail(self.metadata@, key@, i + 1);
                    assert(self.metadata@.take(i + 1).drop_last() =~= self.metadata@.take(i as int));
                    assert(self.metadata@.take(i + 1).last() == self.metadata@[i as int]);
                }
                return Some(self.metadata[i].1.clone());
            }
        }
        proof {
            lemma_metadata_map_ignores_tail(self.metadata@, key@, 0);
            assert(self.metadata@.take(0) =~= Seq::<(String, String)>::empty());
        }
        None
    }

    /// The metadata entries in the order they were recorded.
    pub fn metadata_pairs(&self) -> (r: &Vec<(String, String)>)
        ensures
            metadata_map(r@) == self@.metadata,
    {
        &self.metadata
    }
}

/// Entries at or past position `i` whose key is not `key` do not change what
/// the map holds at `key`.
proof fn lemma_metadata_map_ignores_tail(entries: Seq<(String, String)>, key: Seq<char>, i: int)
    requires
        0 <= i <= entries.len(),
        forall|j: int| i <= j < entries.len() ==> entries[j].0@ != key,
    ensures
        metadata_map(entries).contains_key(key) == metadata_map(entries.take(i)).contains_key(key),
        metadata_map(entries).contains_key(key) ==> metadata_map(entries)[key] == metadata_map(
            entries.take(i),
        )[key],
    decreases entries.len() - i,
{
    if i < entries.len() {
        assert(entries.last().0@ != key);
        lemma_metadata_map_ignores_tail(entries.drop_last(), key, i);
        assert(entries.drop_last().take(i) =~= entries.take(i));
    } else {
        assert(entries.take(i) =~= entries);
    }
}

/// Writing a value and then reading the same key yields exactly that value:
/// the metadata round trip of `add_metadata` followed by `get_metadata`.
pub proof fn lemma_metadata_round_trip(t: TokenModel, key: Seq<char>, value: Seq<char>)
    ensures
        t.metadata.insert(key, value).contains_key(key),
        t.metadata.insert(key, value)[key] == value,
{
}

/// Character-for-character string equality.
pub fn str_eq(a: &str, b: &str) -> (r: bool)
    ensures
        r == (a@ == b@),
{
    let la = a.unicode_len();
    let lb = b.unicode_len();
    if la != lb {
        return false;
    }
    let mut i: usize = 0;
    while i < la
        invariant
            la == a@.len(),
            la == b@.len(),
            i <= la,
            forall|k: int| 0 <= k < i ==> a@[k] == b@[k],
        decreases la - i,
    {
        if a.get_char(i) != b.get_char(i) {
            return false;
        }
        i = i + 1;
    }
    proof {
        assert(a@ =~= b@);
    }
    true
}

} // verus!
