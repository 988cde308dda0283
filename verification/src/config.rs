//! Validation of a configuration into the decision table.

use crate::address::{check_ip, is_ip_literal};
use crate::error::{AddressList, ConfigError};
use crate::payload::{payload_config, texts, RawConfig, RawFilterConfig};
use std::sync::Arc;
use vstd::prelude::*;
use vstd::utf8::encode_utf8;

verus! {

/// The address that a literal writes: its bytes.
pub open spec fn address_of(literal: Seq<char>) -> Seq<u8> {
    encode_utf8(literal)
}

/// The literal writes an IPv4 or an IPv6 address.
pub open spec fn is_address_literal(literal: Seq<char>) -> bool {
    is_ip_literal(address_of(literal))
}

/// Every literal of the list writes an address.
pub open spec fn all_valid(literals: Seq<Seq<char>>) -> bool {
    forall|i: int| 0 <= i < literals.len() ==> is_address_literal(#[trigger] literals[i])
}

/// Literal `i` is the first of the list that writes no address.
pub open spec fn is_first_invalid(literals: Seq<Seq<char>>, i: int) -> bool {
    &&& 0 <= i < literals.len()
    &&& !is_address_literal(literals[i])
    &&& forall|k: int| 0 <= k < i ==> is_address_literal(#[trigger] literals[k])
}

/// The literal stands in the list.
pub open spec fn occurs(literals: Seq<Seq<char>>, literal: Seq<char>) -> bool {
    exists|i: int| 0 <= i < literals.len() && #[trigger] literals[i] == literal
}

/// No literal stands in the list twice.
pub open spec fn no_repeats(literals: Seq<Seq<char>>) -> bool {
    forall|i: int, j: int|
        0 <= i < literals.len() && 0 <= j < literals.len() && #[trigger] literals[i]
            == #[trigger] literals[j] ==> i == j
}

/// The addresses that the literals of a list write.
pub open spec fn address_set(literals: Seq<Seq<char>>) -> Set<Seq<u8>> {
    Set::new(
        |address: Seq<u8>|
            exists|literal: Seq<char>|
                #[trigger] occurs(literals, literal) && address_of(literal) == address,
    )
}

/// The set holds no address.
pub open spec fn lists_nothing(addresses: Set<Seq<u8>>) -> bool {
    forall|address: Seq<u8>| !addresses.contains(address)
}

/// The mathematical model of a decision table: the addresses to refuse and
/// the addresses to let pass.
pub struct DecisionTable {
    pub deny_exact: Set<Seq<u8>>,
    pub allow_exact: Set<Seq<u8>>,
}

impl DecisionTable {
    /// The table names addresses to let pass.
    pub open spec fn is_allow_list(self) -> bool {
        !lists_nothing(self.allow_exact)
    }

    /// The table names addresses to refuse.
    pub open spec fn is_deny_list(self) -> bool {
        !lists_nothing(self.deny_exact)
    }

    /// The invariant of a table: exactly one of its two sets is empty, and
    /// every address in it is an IPv4 or an IPv6 literal.
    pub open spec fn wf(self) -> bool {
        &&& self.is_allow_list() != self.is_deny_list()
        &&& forall|address: Seq<u8>|
            self.deny_exact.contains(address) || self.allow_exact.contains(address)
                ==> is_ip_literal(address)
    }
}

impl RawConfig {
    /// Exactly one of the two lists is empty.
    pub open spec fn exclusive(self) -> bool {
        (self.deny.len() == 0) != (self.allow.len() == 0)
    }

    /// The literals in the order in which they are validated.
    pub open spec fn checked(self) -> Seq<Seq<char>> {
        self.allow + self.deny
    }

    /// The table of what the configuration lists, verbatim.
    pub open spec fn table(self) -> DecisionTable {
        DecisionTable { deny_exact: address_set(self.deny), allow_exact: address_set(self.allow) }
    }
}

/// Whether `literal` stands in `entries`.
fn holds_literal(entries: &Vec<String>, literal: &String) -> (found: bool)
    ensures
        found == occurs(texts(entries@), literal@),
{
    let mut i: usize = 0;
    while i < entries.len()
        invariant
            i <= entries@.len(),
            forall|k: int| 0 <= k < i ==> texts(entries@)[k] != literal@,
        decreases entries@.len() - i,
    {
        if entries[i] == *literal {
            assert(texts(entries@)[i as int] == literal@);
            return true;
        }
        i += 1;
    }
    false
}

/// Validates the literals of one list and copies them, each once.
fn validate_list(literals: &Vec<String>) -> (outcome: Result<Vec<String>, String>)
    ensures
        match outcome {
            Ok(entries) => {
                &&& all_valid(texts(literals@))
                &&& no_repeats(texts(entries@))
                &&& forall|literal: Seq<char>|
                    occurs(texts(entries@), literal) <==> occurs(texts(literals@), literal)
            },
            Err(literal) => exists|i: int|
                is_first_invalid(texts(literals@), i) && literal@ == texts(literals@)[i],
        },
{
    let mut entries: Vec<String> = Vec::new();
    let mut i: usize = 0;
    while i < literals.len()
        invariant
            i <= literals@.len(),
            forall|k: int| 0 <= k < i ==> is_address_literal(#[trigger] texts(literals@)[k]),
            no_repeats(texts(entries@)),
            forall|literal: Seq<char>|
                #![trigger occurs(texts(entries@), literal)]
                #![trigger occurs(texts(literals@).take(i as int), literal)]
                occurs(texts(entries@), literal) <==> occurs(
                    texts(literals@).take(i as int),
                    literal,
                ),
        decreases literals@.len() - i,
    {
        let literal = &literals[i];
        let ghost text = texts(literals@)[i as int];
        assert(text == literal@);
        if !check_ip(literal.as_str().as_bytes()) {
            assert(is_first_invalid(texts(literals@), i as int));
            return Err(literal.clone());
        }
        let ghost before = texts(entries@);
        let ghost seen = texts(literals@).take(i as int);
        let ghost seen_after = texts(literals@).take(i + 1);
        let known = holds_literal(&entries, literal);
        if !known {
            entries.push(literal.clone());
        }
        proof {
            let after = texts(entries@);
            assert(seen_after == seen.push(text));
            assert(seen_after[i as int] == text);
            if !known {
                assert(after == before.push(text));
                assert(after[before.len() as int] == text);
            }
            assert forall|other: Seq<char>| occurs(after, other) <==> occurs(
                seen_after,
                other,
            ) by {
                if occurs(after, other) {
                    let j = choose|j: int| 0 <= j < after.len() && after[j] == other;
                    if j < before.len() {
                        assert(before[j] == other);
                        assert(occurs(before, other));
                        let k = choose|k: int| 0 <= k < seen.len() && seen[k] == other;
                        assert(seen_after[k] == other);
                    }
                }
                if occurs(seen_after, other) {
                    let k = choose|k: int| 0 <= k < seen_after.len() && seen_after[k] == other;
                    if k < i {
                        assert(seen[k] == other);
                        assert(occurs(seen, other));
                        assert(occurs(before, other));
                        let j = choose|j: int| 0 <= j < before.len() && before[j] == other;
                        assert(after[j] == other);
                    } else {
                        assert(other == text);
                        if known {
                            assert(occurs(before, text));
                            let j = choose|j: int| 0 <= j < before.len() && before[j] == text;
                            assert(after[j] == other);
                        }
                    }
                }
            }
        }
        i += 1;
    }
    proof {
        assert(texts(literals@).take(i as int) == texts(literals@));
    }
    Ok(entries)
}

/// The decision table: the addresses to refuse and the addresses to let
/// pass, validated.
#[derive(Debug)]
pub struct FilterConfigImpl {
    deny_addresses_exact: Vec<String>,
    allow_addresses_exact: Vec<String>,
}

impl View for FilterConfigImpl {
    type V = DecisionTable;

    closed spec fn view(&self) -> DecisionTable {
        DecisionTable {
            deny_exact: address_set(texts(self.deny_addresses_exact@)),
            allow_exact: address_set(texts(self.allow_addresses_exact@)),
        }
    }
}

impl FilterConfigImpl {
    /// Each address is held once.
    pub closed spec fn distinct(&self) -> bool {
        no_repeats(texts(self.deny_addresses_exact@)) && no_repeats(
            texts(self.allow_addresses_exact@),
        )
    }

    /// The invariant of a table: that of its model, and no address is held
    /// twice.
    pub open spec fn wf(&self) -> bool {
        self@.wf() && self.distinct()
    }

    /// Whether the table names addresses to refuse.
    pub fn has_deny_list(&self) -> (yes: bool)
        ensures
            yes == self@.is_deny_list(),
    {
        proof {
            lemma_nothing_listed(texts(self.deny_addresses_exact@));
        }
        self.deny_addresses_exact.len() != 0
    }

    /// Whether the table names addresses to let pass.
    pub fn has_allow_list(&self) -> (yes: bool)
        ensures
            yes == self@.is_allow_list(),
    {
        proof {
            lemma_nothing_listed(texts(self.allow_addresses_exact@));
        }
        self.allow_addresses_exact.len() != 0
    }

    /// Whether the table refuses `address`.
    pub fn denies(&self, address: &[u8]) -> (yes: bool)
        ensures
            yes == self@.deny_exact.contains(address@),
    {
        holds_address(&self.deny_addresses_exact, address)
    }

    /// Whether the table lets `address` pass.
    pub fn allows(&self, address: &[u8]) -> (yes: bool)
        ensures
            yes == self@.allow_exact.contains(address@),
    {
        holds_address(&self.allow_addresses_exact, address)
    }
}

/// A list writes no address just when it is empty.
pub proof fn lemma_nothing_listed(literals: Seq<Seq<char>>)
    ensures
        lists_nothing(address_set(literals)) <==> literals.len() == 0,
{
    if literals.len() > 0 {
        assert(occurs(literals, literals[0]));
        assert(address_set(literals).contains(address_of(literals[0])));
    }
}

/// Two lists that hold the same literals write the same addresses.
pub proof fn lemma_same_literals(left: Seq<Seq<char>>, right: Seq<Seq<char>>)
    requires
        forall|literal: Seq<char>| occurs(left, literal) <==> occurs(right, literal),
    ensures
        address_set(left) == address_set(right),
{
    assert(address_set(left) =~= address_set(right));
}

/// Whether two byte strings are the same.
fn same_bytes(left: &[u8], right: &[u8]) -> (same: bool)
    ensures
        same == (left@ == right@),
{
    if left.len() != right.len() {
        return false;
    }
    let mut i: usize = 0;
    while i < left.len()
        invariant
            left@.len() == right@.len(),
            i <= left@.len(),
            forall|k: int| 0 <= k < i ==> left@[k] == right@[k],
        decreases left@.len() - i,
    {
        if left[i] != right[i] {
            return false;
        }
        i += 1;
    }
    assert(left@ =~= right@);
    true
}

/// Whether one of `entries` writes `address`.
fn holds_address(entries: &Vec<String>, address: &[u8]) -> (found: bool)
    ensures
        found == address_set(texts(entries@)).contains(address@),
{
    let mut i: usize = 0;
    while i < entries.len()
        invariant
            i <= entries@.len(),
            forall|k: int| 0 <= k < i ==> address_of(#[trigger] texts(entries@)[k]) != address@,
        decreases entries@.len() - i,
    {
        if same_bytes(entries[i].as_str().as_bytes(), address) {
            assert(occurs(texts(entries@), texts(entries@)[i as int]));
            return true;
        }
        i += 1;
    }
    false
}

/// `Arc::clone`. Believed: the new handle points at the value that the old
/// one points at.
#[verifier::external_body]
fn share_table(table: &Arc<FilterConfigImpl>) -> (shared: Arc<FilterConfigImpl>)
    ensures
        shared == *table,
{
    Arc::clone(table)
}

/// A validated configuration, cheap to share: every filter made from it reads
/// the same table.
#[derive(Debug, Clone)]
pub struct FilterConfig {
    config: Arc<FilterConfigImpl>,
}

/// The table holds what the configuration lists, verbatim, and keeps its
/// invariant.
pub open spec fn is_table_of(config: FilterConfig, raw: RawConfig) -> bool {
    config.table().wf() && config@ == raw.table()
}

/// The list in which literal `i` of the validation order stands.
pub open spec fn list_of(raw: RawConfig, i: int) -> AddressList {
    if i < raw.allow.len() {
        AddressList::Allow
    } else {
        AddressList::Deny
    }
}

/// What validation makes of a configuration. A configuration with both lists
/// empty, or neither, is refused for that, whatever it lists. Otherwise the
/// first literal that writes no address, the allow list read before the deny
/// list, is refused by name. Otherwise the table holds what was listed,
/// verbatim.
pub open spec fn constructs(raw: RawConfig, outcome: Result<FilterConfig, ConfigError>) -> bool {
    match outcome {
        Ok(config) => raw.exclusive() && all_valid(raw.checked()) && is_table_of(config, raw),
        Err(ConfigError::ExclusivityViolation) => !raw.exclusive(),
        Err(ConfigError::InvalidAddress(literal, list)) => raw.exclusive() && exists|i: int|
            is_first_invalid(raw.checked(), i) && raw.checked()[i] == literal@ && list == list_of(
                raw,
                i,
            ),
        Err(ConfigError::MalformedPayload) => false,
    }
}

/// What loading makes of a payload: the table of the configuration that the
/// payload writes, where it writes one that validation accepts, and nothing
/// otherwise.
pub open spec fn loads(payload: Seq<char>, config: Option<FilterConfig>) -> bool {
    match payload_config(payload) {
        Some(raw) => if raw.exclusive() && all_valid(raw.checked()) {
            config matches Some(table) && is_table_of(table, raw)
        } else {
            config is None
        },
        None => config is None,
    }
}

/// What construction makes of a payload: a payload that writes no
/// configuration is malformed; one that writes a configuration is validated.
pub open spec fn builds(payload: Seq<char>, outcome: Result<FilterConfig, ConfigError>) -> bool {
    match payload_config(payload) {
        Some(raw) => constructs(raw, outcome),
        None => outcome matches Err(ConfigError::MalformedPayload),
    }
}

impl View for FilterConfig {
    type V = DecisionTable;

    open spec fn view(&self) -> DecisionTable {
        self.table()@
    }
}

impl FilterConfig {
    /// The table that the configuration shares.
    pub closed spec fn table(&self) -> FilterConfigImpl {
        *self.config
    }

    /// The table that the configuration shares.
    pub fn config(&self) -> (table: &FilterConfigImpl)
        ensures
            *table == self.table(),
    {
        &*self.config
    }

    /// Another handle to the same table.
    pub fn share(&self) -> (shared: FilterConfig)
        ensures
            shared == *self,
    {
        FilterConfig { config: share_table(&self.config) }
    }

    /// Validates a configuration into its table.
    pub fn from_raw(raw: &RawFilterConfig) -> (outcome: Result<FilterConfig, ConfigError>)
        ensures
            constructs(raw@, outcome),
            !raw@.exclusive() ==> outcome matches Err(ConfigError::ExclusivityViolation),
            raw@.exclusive() && !all_valid(raw@.checked()) ==> outcome matches Err(
                ConfigError::InvalidAddress(_, _),
            ),
            raw@.exclusive() && all_valid(raw@.checked()) ==> (outcome matches Ok(config)
                && is_table_of(config, raw@)),
    {
        if (raw.deny_addresses.len() == 0) == (raw.allow_addresses.len() == 0) {
            return Err(ConfigError::ExclusivityViolation);
        }
        let ghost allow = texts(raw.allow_addresses@);
        let ghost deny = texts(raw.deny_addresses@);
        let allow_addresses_exact = match validate_list(&raw.allow_addresses) {
            Ok(entries) => entries,
            Err(literal) => {
                proof {
                    let i = choose|i: int| is_first_invalid(allow, i) && literal@ == allow[i];
                    assert(raw@.checked()[i] == allow[i]);
                    assert forall|k: int| 0 <= k < i implies is_address_literal(
                        #[trigger] raw@.checked()[k],
                    ) by {
                        assert(raw@.checked()[k] == allow[k]);
                    }
                    assert(is_first_invalid(raw@.checked(), i));
                    assert(raw@.allow == allow);
                    assert(list_of(raw@, i) == AddressList::Allow);
                }
                return Err(ConfigError::InvalidAddress(literal, AddressList::Allow));
            },
        };
        let deny_addresses_exact = match validate_list(&raw.deny_addresses) {
            Ok(entries) => entries,
            Err(literal) => {
                proof {
                    let i = choose|i: int| is_first_invalid(deny, i) && literal@ == deny[i];
                    let at = allow.len() + i;
                    assert(raw@.checked()[at] == deny[i]);
                    assert forall|k: int| 0 <= k < at implies is_address_literal(
                        #[trigger] raw@.checked()[k],
                    ) by {
                        if k < allow.len() {
                            assert(raw@.checked()[k] == allow[k]);
                        } else {
                            assert(raw@.checked()[k] == deny[k - allow.len()]);
                        }
                    }
                    assert(is_first_invalid(raw@.checked(), at));
                    assert(raw@.allow == allow);
                    assert(list_of(raw@, at) == AddressList::Deny);
                }
                return Err(ConfigError::InvalidAddress(literal, AddressList::Deny));
            },
        };
        let table = FilterConfigImpl { deny_addresses_exact, allow_addresses_exact };
        proof {
            let kept_allow = texts(table.allow_addresses_exact@);
            let kept_deny = texts(table.deny_addresses_exact@);
            lemma_same_literals(kept_allow, allow);
            lemma_same_literals(kept_deny, deny);
            lemma_nothing_listed(allow);
            lemma_nothing_listed(deny);
            assert forall|k: int| 0 <= k < raw@.checked().len() implies is_address_literal(
                #[trigger] raw@.checked()[k],
            ) by {
                if k < allow.len() {
                    assert(raw@.checked()[k] == allow[k]);
                } else {
                    assert(raw@.checked()[k] == deny[k - allow.len()]);
                }
            }
            assert(table@.deny_exact == address_set(deny));
            assert(table@.allow_exact == address_set(allow));
            assert forall|address: Seq<u8>|
                table@.deny_exact.contains(address) || table@.allow_exact.contains(
                    address,
                ) implies is_ip_literal(address) by {
                if address_set(deny).contains(address) {
                    let literal = choose|literal: Seq<char>|
                        occurs(deny, literal) && address_of(literal) == address;
                    let i = choose|i: int| 0 <= i < deny.len() && deny[i] == literal;
                    assert(is_address_literal(deny[i]));
                } else {
                    let literal = choose|literal: Seq<char>|
                        occurs(allow, literal) && address_of(literal) == address;
                    let i = choose|i: int| 0 <= i < allow.len() && allow[i] == literal;
                    assert(is_address_literal(allow[i]));
                }
            }
        }
        Ok(FilterConfig { config: Arc::new(table) })
    }

    /// Builds the decision table that a configuration payload describes.
    pub fn build(payload: &str) -> (outcome: Result<FilterConfig, ConfigError>)
        ensures
            builds(payload@, outcome),
    {
        match RawFilterConfig::parse(payload) {
            Ok(raw) => FilterConfig::from_raw(&raw),
            Err(_) => Err(ConfigError::MalformedPayload),
        }
    }

    /// Builds the decision table that a configuration payload describes, or
    /// nothing where the payload is refused.
    pub fn new(filter_config: &str) -> (config: Option<FilterConfig>)
        ensures
            loads(filter_config@, config),
    {
        match FilterConfig::build(filter_config) {
            Ok(config) => Some(config),
            Err(_) => None,
        }
    }
}

/// A configuration with both lists empty, or with neither empty, is refused
/// for that, whatever its literals are.
pub proof fn lemma_exclusivity_is_required(
    raw: RawConfig,
    outcome: Result<FilterConfig, ConfigError>,
)
    requires
        constructs(raw, outcome),
        (raw.deny.len() == 0) == (raw.allow.len() == 0),
    ensures
        outcome matches Err(ConfigError::ExclusivityViolation),
{
}

/// A configuration with exactly one list that is not empty, every literal of
/// which writes an address, gives a table; the table holds the addresses of
/// that list as they were written, and no others.
pub proof fn lemma_valid_configuration_loads(
    raw: RawConfig,
    outcome: Result<FilterConfig, ConfigError>,
)
    requires
        constructs(raw, outcome),
        (raw.deny.len() == 0) != (raw.allow.len() == 0),
        all_valid(raw.deny),
        all_valid(raw.allow),
    ensures
        outcome matches Ok(config) && config.table().wf() && config@.deny_exact == address_set(
            raw.deny,
        ) && config@.allow_exact == address_set(raw.allow),
        raw.deny.len() == 0 ==> lists_nothing(outcome->Ok_0@.deny_exact),
        raw.allow.len() == 0 ==> lists_nothing(outcome->Ok_0@.allow_exact),
{
    lemma_nothing_listed(raw.deny);
    lemma_nothing_listed(raw.allow);
}

/// A configuration with exactly one list that is not empty, and with a
/// literal that writes no address, is refused for such a literal of its own,
/// whatever the other literals are.
pub proof fn lemma_invalid_literal_is_refused(
    raw: RawConfig,
    outcome: Result<FilterConfig, ConfigError>,
    at: int,
)
    requires
        constructs(raw, outcome),
        (raw.deny.len() == 0) != (raw.allow.len() == 0),
        0 <= at < raw.checked().len(),
        !is_address_literal(raw.checked()[at]),
    ensures
        outcome matches Err(ConfigError::InvalidAddress(literal, _)) && !is_address_literal(
            literal@,
        ) && occurs(raw.checked(), literal@),
{
}

/// Building is a function of the payload: two outcomes for one payload are
/// both tables, with the same deny set and the same allow set, or both the
/// same refusal.
pub proof fn lemma_build_is_repeatable(
    payload: Seq<char>,
    first: Result<FilterConfig, ConfigError>,
    second: Result<FilterConfig, ConfigError>,
)
    requires
        builds(payload, first),
        builds(payload, second),
    ensures
        match (first, second) {
            (Ok(one), Ok(other)) => one@ == other@,
            (Err(ConfigError::MalformedPayload), Err(ConfigError::MalformedPayload)) => true,
            (
                Err(ConfigError::ExclusivityViolation),
                Err(ConfigError::ExclusivityViolation),
            ) => true,
            (
                Err(ConfigError::InvalidAddress(one, list)),
                Err(ConfigError::InvalidAddress(other, other_list)),
            ) => one@ == other@ && list == other_list,
            _ => false,
        },
{
}

} // verus!
