//! The configuration payload: which lists of address literals a document
//! writes.

use crate::error::ConfigError;
use crate::json::{parsed_document, Json, Tree};
use vstd::prelude::*;

verus! {

/// The member that lists the addresses to refuse.
pub open spec fn deny_key() -> Seq<char> {
    "deny_addresses"@
}

/// The member that lists the addresses to let pass.
pub open spec fn allow_key() -> Seq<char> {
    "allow_addresses"@
}

/// The mathematical model of a configuration as it was supplied: the address
/// literals of each list, in the order in which they were written.
pub struct RawConfig {
    pub deny: Seq<Seq<char>>,
    pub allow: Seq<Seq<char>>,
}

/// A configuration as it was supplied, not yet validated. Of a list only the
/// set of its literals matters: to write one twice is to write it once.
#[derive(Debug)]
pub struct RawFilterConfig {
    pub deny_addresses: Vec<String>,
    pub allow_addresses: Vec<String>,
}

/// The texts that a list of strings holds.
pub open spec fn texts(list: Seq<String>) -> Seq<Seq<char>> {
    Seq::new(list.len(), |i: int| list[i]@)
}

impl View for RawFilterConfig {
    type V = RawConfig;

    open spec fn view(&self) -> RawConfig {
        RawConfig { deny: texts(self.deny_addresses@), allow: texts(self.allow_addresses@) }
    }
}

/// The texts of a JSON array of strings; `None` for any other value.
pub open spec fn string_list(value: Tree) -> Option<Seq<Seq<char>>> {
    match value {
        Tree::Array(items) => if forall|i: int|
            0 <= i < items.len() ==> #[trigger] items[i] is Text {
            Some(Seq::new(items.len(), |i: int| items[i]->Text_0))
        } else {
            None
        },
        _ => None,
    }
}

/// Member `i` of an object is named `key`.
pub open spec fn is_member(members: Seq<(Seq<char>, Tree)>, key: Seq<char>, i: int) -> bool {
    0 <= i < members.len() && members[i].0 == key
}

/// The list that an object gives under `key`: empty where it has no such
/// member, and `None` where it has more than one or where the member is not an
/// array of strings.
pub open spec fn member_list(members: Seq<(Seq<char>, Tree)>, key: Seq<char>) -> Option<
    Seq<Seq<char>>,
> {
    if forall|i: int| !is_member(members, key, i) {
        Some(Seq::empty())
    } else {
        let i = choose|i: int| is_member(members, key, i);
        if forall|j: int| is_member(members, key, j) ==> j == i {
            string_list(members[i].1)
        } else {
            None
        }
    }
}

/// The list that an array gives at position `i`: empty where the array is
/// shorter, and `None` where the element is not an array of strings.
pub open spec fn positional_list(items: Seq<Tree>, i: int) -> Option<Seq<Seq<char>>> {
    if i < items.len() {
        string_list(items[i])
    } else {
        Some(Seq::empty())
    }
}

/// The configuration that a document writes, or `None` where it writes none.
/// An object gives the two lists by name, each at most once, and may hold
/// other members. An array of up to two elements gives them by position, the
/// deny list first.
pub open spec fn document_config(document: Tree) -> Option<RawConfig> {
    match document {
        Tree::Object(members) => match (
            member_list(members, deny_key()),
            member_list(members, allow_key()),
        ) {
            (Some(deny), Some(allow)) => Some(RawConfig { deny, allow }),
            _ => None,
        },
        Tree::Array(items) => match (positional_list(items, 0), positional_list(items, 1)) {
            (Some(deny), Some(allow)) => if items.len() <= 2 {
                Some(RawConfig { deny, allow })
            } else {
                None
            },
            _ => None,
        },
        _ => None,
    }
}

/// Copies the strings of a JSON array of strings.
fn read_string_list(value: &Json) -> (list: Option<Vec<String>>)
    ensures
        match list {
            Some(strings) => string_list(value@) == Some(texts(strings@)),
            None => string_list(value@) is None,
        },
{
    match value {
        Json::Array(items) => {
            let mut strings: Vec<String> = Vec::new();
            let mut i: usize = 0;
            while i < items.len()
                invariant
                    i <= items@.len(),
                    strings@.len() == i,
                    value@ is Array,
                    value@->Array_0.len() == items@.len(),
                    forall|k: int| 0 <= k < items@.len() ==> value@->Array_0[k] == items@[k]@,
                    forall|k: int| 0 <= k < i ==> value@->Array_0[k] == Tree::Text(strings@[k]@),
                decreases items@.len() - i,
            {
                match &items[i] {
                    Json::Text(text) => {
                        strings.push(text.clone());
                    },
                    _ => {
                        assert(!(value@->Array_0[i as int] is Text));
                        return None;
                    },
                }
                i += 1;
            }
            assert(string_list(value@)->0 =~= texts(strings@));
            Some(strings)
        },
        _ => None,
    }
}

/// The members of an object, each as its name and the document under it.
pub open spec fn member_views(members: Seq<(String, Json)>) -> Seq<(Seq<char>, Tree)> {
    Seq::new(members.len(), |i: int| (members[i].0@, members[i].1@))
}

/// An object is modelled member by member.
pub proof fn lemma_object_view(members: Vec<(String, Json)>)
    ensures
        Json::Object(members)@ == Tree::Object(member_views(members@)),
{
    assert(Json::Object(members)@->Object_0 =~= member_views(members@));
}

/// An array is modelled element by element.
pub proof fn lemma_array_view(items: Vec<Json>)
    ensures
        Json::Array(items)@ is Array,
        Json::Array(items)@->Array_0.len() == items@.len(),
        forall|i: int| 0 <= i < items@.len() ==> Json::Array(items)@->Array_0[i] == items@[i]@,
{
}

/// Reads the list that the members of an object give under `key`.
fn read_member(members: &Vec<(String, Json)>, key: &str) -> (list: Option<Vec<String>>)
    ensures
        match list {
            Some(strings) => member_list(member_views(members@), key@) == Some(texts(strings@)),
            None => member_list(member_views(members@), key@) is None,
        },
{
    let name: String = key.to_owned();
    let ghost views = member_views(members@);
    let mut found: Option<usize> = None;
    let mut i: usize = 0;
    while i < members.len()
        invariant
            i <= members@.len(),
            name@ == key@,
            views == member_views(members@),
            match found {
                Some(at) => at < i && is_member(views, key@, at as int) && forall|k: int|
                    0 <= k < i && is_member(views, key@, k) ==> k == at,
                None => forall|k: int| 0 <= k < i ==> !is_member(views, key@, k),
            },
        decreases members@.len() - i,
    {
        if members[i].0 == name {
            assert(is_member(views, key@, i as int));
            if found.is_some() {
                return None;
            }
            found = Some(i);
        }
        i += 1;
    }
    match found {
        None => {
            let strings: Vec<String> = Vec::new();
            assert(texts(strings@) =~= Seq::empty());
            Some(strings)
        },
        Some(at) => {
            assert(is_member(views, key@, at as int));
            read_string_list(&members[at].1)
        },
    }
}

/// Reads the list that the elements of an array give at position `at`.
fn read_position(items: &Vec<Json>, at: usize) -> (list: Option<Vec<String>>)
    ensures
        match list {
            Some(strings) => positional_list(Json::Array(*items)@->Array_0, at as int) == Some(
                texts(strings@),
            ),
            None => positional_list(Json::Array(*items)@->Array_0, at as int) is None,
        },
{
    proof {
        lemma_array_view(*items);
    }
    if at < items.len() {
        read_string_list(&items[at])
    } else {
        let strings: Vec<String> = Vec::new();
        assert(texts(strings@) =~= Seq::empty());
        Some(strings)
    }
}

impl RawFilterConfig {
    /// Reads the configuration that a document writes.
    pub fn from_json(document: &Json) -> (outcome: Result<RawFilterConfig, ConfigError>)
        ensures
            match outcome {
                Ok(raw) => document_config(document@) == Some(raw@),
                Err(error) => error is MalformedPayload && document_config(document@) is None,
            },
    {
        match document {
            Json::Object(members) => {
                proof {
                    lemma_object_view(*members);
                }
                let deny = read_member(members, "deny_addresses");
                let allow = read_member(members, "allow_addresses");
                match (deny, allow) {
                    (Some(deny_addresses), Some(allow_addresses)) => Ok(
                        RawFilterConfig { deny_addresses, allow_addresses },
                    ),
                    _ => Err(ConfigError::MalformedPayload),
                }
            },
            Json::Array(items) => {
                match (read_position(items, 0), read_position(items, 1)) {
                    (Some(deny_addresses), Some(allow_addresses)) => {
                        proof {
                            lemma_array_view(*items);
                        }
                        if items.len() <= 2 {
                            Ok(RawFilterConfig { deny_addresses, allow_addresses })
                        } else {
                            Err(ConfigError::MalformedPayload)
                        }
                    },
                    _ => Err(ConfigError::MalformedPayload),
                }
            },
            _ => Err(ConfigError::MalformedPayload),
        }
    }

    /// Reads the configuration that a payload writes.
    pub fn parse(payload: &str) -> (outcome: Result<RawFilterConfig, ConfigError>)
        ensures
            match outcome {
                Ok(raw) => payload_config(payload@) == Some(raw@),
                Err(error) => error is MalformedPayload && payload_config(payload@) is None,
            },
    {
        match Json::parse(payload) {
            Some(document) => RawFilterConfig::from_json(&document),
            None => Err(ConfigError::MalformedPayload),
        }
    }
}

/// The configuration that a payload writes: that of the document that the
/// payload is read as.
pub open spec fn payload_config(payload: Seq<char>) -> Option<RawConfig> {
    match parsed_document(payload) {
        Some(document) => document_config(document),
        None => None,
    }
}

} // verus!
