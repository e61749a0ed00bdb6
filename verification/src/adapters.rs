//! Choosing a Bluetooth adapter: the order in which the available adapters
//! are listed, and the adapter that a selection picks.

use vstd::prelude::*;
use vstd::utf8::encode_utf8;
use crate::text::{
    bytes_contain, bytes_lt, compare_bytes, contains_bytes, lemma_bytes_lt_total,
    lemma_bytes_lt_transitive, occurs_at, Order,
};

verus! {

/// The power state that an adapter reports.
#[derive(Debug, Clone, Copy, PartialEq, Eq, Structural)]
pub enum AdapterState {
    PoweredOn,
    PoweredOff,
    Unknown,
}

/// What the adapter list knows of one adapter.
pub struct AdapterInfo {
    pub name: String,
    pub state: AdapterState,
}

/// Which adapter to scan with.
#[derive(Debug, Clone, Copy)]
pub enum AdapterSelection<'a> {
    /// Choose any available Bluetooth adapter.
    Any,
    /// Choose the Bluetooth adapter with the given index.
    /// The index must be in bounds.
    Index(usize),
    /// Choose the Bluetooth adapter with the given name.
    /// Name may be partial.
    /// Errors when the name is not found.
    PartialName(&'a str),
}

impl<'a> Default for AdapterSelection<'a> {
    fn default() -> (selection: Self)
        ensures
            selection is Any,
    {
        AdapterSelection::Any
    }
}

/// No adapter name contains the name that was asked for.
#[derive(Debug)]
pub struct AdapterNotFound;

/// The UTF-8 bytes of a string.
pub open spec fn utf8_of(s: Seq<char>) -> Seq<u8> {
    encode_utf8(s)
}

/// How an adapter in `state` is ranked: powered-on adapters first, adapters
/// of unknown state after them, powered-off adapters not at all.
pub open spec fn rank_of(state: AdapterState) -> Option<u8> {
    match state {
        AdapterState::PoweredOff => None,
        AdapterState::PoweredOn => Some(0),
        AdapterState::Unknown => Some(1),
    }
}

/// The rank of an adapter in `state`.
pub fn adapter_rank(state: &AdapterState) -> (rank: Option<u8>)
    ensures
        rank == rank_of(*state),
{
    match state {
        AdapterState::PoweredOff => None,
        AdapterState::PoweredOn => Some(0),
        AdapterState::Unknown => Some(1),
    }
}

/// Adapter `i` is listed: it exists and is not powered off.
pub open spec fn listed(adapters: Seq<AdapterInfo>, i: int) -> bool {
    0 <= i < adapters.len() && rank_of(adapters[i].state) is Some
}

/// Adapter `i` is listed before adapter `j`: by rank, then by name, then by
/// the order in which they were reported.
pub open spec fn listed_before(adapters: Seq<AdapterInfo>, i: int, j: int) -> bool {
    let ri = rank_of(adapters[i].state)->0;
    let rj = rank_of(adapters[j].state)->0;
    let ni = utf8_of(adapters[i].name@);
    let nj = utf8_of(adapters[j].name@);
    ||| ri < rj
    ||| ri == rj && bytes_lt(ni, nj)
    ||| ri == rj && ni == nj && i < j
}

/// `listed_before` orders distinct listed adapters totally and transitively.
pub proof fn lemma_listed_before_order(adapters: Seq<AdapterInfo>, i: int, j: int, k: int)
    requires
        listed(adapters, i),
        listed(adapters, j),
        listed(adapters, k),
    ensures
        !listed_before(adapters, i, i),
        i != j ==> (listed_before(adapters, i, j) || listed_before(adapters, j, i)),
        !(listed_before(adapters, i, j) && listed_before(adapters, j, i)),
        listed_before(adapters, i, j) && listed_before(adapters, j, k) ==> listed_before(adapters, i, k),
{
    let ni = utf8_of(adapters[i].name@);
    let nj = utf8_of(adapters[j].name@);
    let nk = utf8_of(adapters[k].name@);
    lemma_bytes_lt_total(ni, nj);
    lemma_bytes_lt_total(nj, nk);
    lemma_bytes_lt_total(ni, nk);
    lemma_bytes_lt_total(ni, ni);
    if bytes_lt(ni, nj) && bytes_lt(nj, nk) {
        lemma_bytes_lt_transitive(ni, nj, nk);
    }
}

/// Whether adapter `i` is listed before adapter `j`.
fn is_listed_before(adapters: &Vec<AdapterInfo>, i: usize, j: usize) -> (before: bool)
    requires
        listed(adapters@, i as int),
        listed(adapters@, j as int),
    ensures
        before == listed_before(adapters@, i as int, j as int),
{
    let ri = adapter_rank(&adapters[i].state).unwrap();
    let rj = adapter_rank(&adapters[j].state).unwrap();
    if ri != rj {
        return ri < rj;
    }
    match compare_bytes(adapters[i].name.as_str().as_bytes(), adapters[j].name.as_str().as_bytes()) {
        Order::Less => true,
        Order::Greater => {
            proof {
                lemma_bytes_lt_total(utf8_of(adapters@[i as int].name@), utf8_of(adapters@[j as int].name@));
            }
            false
        },
        Order::Equal => i < j,
    }
}

/// The order in which the adapters are offered: the indexes of the adapters
/// that are not powered off, powered-on ones first, then by name, adapters
/// with equal rank and name in the order they were reported.
pub fn order_adapters(adapters: &Vec<AdapterInfo>) -> (order: Vec<usize>)
    ensures
        forall|k: int| 0 <= k < order@.len() ==> listed(adapters@, #[trigger] order@[k] as int),
        forall|i: int| listed(adapters@, i) ==> order@.contains(i as usize),
        forall|p: int, q: int|
            0 <= p < q < order@.len() ==> listed_before(adapters@, #[trigger] order@[p] as int, #[trigger] order@[q] as int),
{
    let mut order: Vec<usize> = Vec::new();
    let mut i: usize = 0;
    while i < adapters.len()
        invariant
            i <= adapters@.len(),
            forall|k: int| 0 <= k < order@.len() ==> #[trigger] order@[k] < i && listed(adapters@, order@[k] as int),
            forall|m: int| 0 <= m < i && listed(adapters@, m) ==> order@.contains(m as usize),
            forall|p: int, q: int|
                0 <= p < q < order@.len() ==> listed_before(adapters@, #[trigger] order@[p] as int, #[trigger] order@[q] as int),
        decreases adapters@.len() - i,
    {
        if adapter_rank(&adapters[i].state).is_some() {
            let mut pos: usize = 0;
            while pos < order.len() && !is_listed_before(adapters, i, order[pos])
                invariant
                    i < adapters@.len(),
                    listed(adapters@, i as int),
                    pos <= order@.len(),
                    forall|k: int| 0 <= k < order@.len() ==> #[trigger] order@[k] < i && listed(adapters@, order@[k] as int),
                    forall|p: int| 0 <= p < pos ==> listed_before(adapters@, #[trigger] order@[p] as int, i as int),
                decreases order@.len() - pos,
            {
                proof {
                    lemma_listed_before_order(adapters@, i as int, order@[pos as int] as int, i as int);
                }
                pos = pos + 1;
            }
            let ghost before = order@;
            order.insert(pos, i);
            proof {
                assert forall|p: int, q: int|
                    0 <= p < q < order@.len() implies listed_before(adapters@, #[trigger] order@[p] as int, #[trigger] order@[q] as int) by {
                    if q == pos {
                        assert(order@[p] == before[p]);
                    } else if p == pos {
                        assert(order@[q] == before[q - 1]);
                        assert(listed_before(adapters@, i as int, before[pos as int] as int));
                        if q - 1 > pos {
                            lemma_listed_before_order(adapters@, i as int, before[pos as int] as int, before[q - 1] as int);
                        }
                    } else if p < pos && q > pos {
                        assert(order@[p] == before[p]);
                        assert(order@[q] == before[q - 1]);
                    } else if p > pos {
                        assert(order@[p] == before[p - 1]);
                        assert(order@[q] == before[q - 1]);
                    } else {
                        assert(order@[p] == before[p]);
                        assert(order@[q] == before[q]);
                    }
                }
                assert forall|m: int| 0 <= m < i + 1 && listed(adapters@, m) implies order@.contains(m as usize) by {
                    if m == i {
                        assert(order@[pos as int] == i);
                    } else {
                        let k = choose|k: int| 0 <= k < before.len() && before[k] == m as usize;
                        if k < pos {
                            assert(order@[k] == m as usize);
                        } else {
                            assert(order@[k + 1] == m as usize);
                        }
                    }
                }
                assert forall|k: int| 0 <= k < order@.len() implies #[trigger] order@[k] < i + 1 && listed(adapters@, order@[k] as int) by {
                    if k < pos {
                        assert(order@[k] == before[k]);
                    } else if k > pos {
                        assert(order@[k] == before[k - 1]);
                    }
                }
            }
        }
        i = i + 1;
    }
    order
}

/// Adapter `i` is named exactly `name`.
pub open spec fn names_exactly(names: Seq<String>, name: Seq<char>, i: int) -> bool {
    utf8_of(names[i]@) == utf8_of(name)
}

/// The name of adapter `i` contains `name`.
pub open spec fn names_partly(names: Seq<String>, name: Seq<char>, i: int) -> bool {
    contains_bytes(utf8_of(names[i]@), utf8_of(name))
}

/// Adapter `i` is the one that `name` picks: the first adapter named
/// exactly `name`, or, when there is none, the first whose name contains
/// `name`.
pub open spec fn picks(names: Seq<String>, name: Seq<char>, i: int) -> bool {
    &&& 0 <= i < names.len()
    &&& {
        ||| names_exactly(names, name, i) && forall|j: int|
            0 <= j < i ==> !#[trigger] names_exactly(names, name, j)
        ||| (forall|j: int| 0 <= j < names.len() ==> !#[trigger] names_exactly(names, name, j))
            && names_partly(names, name, i) && forall|j: int|
            0 <= j < i ==> !#[trigger] names_partly(names, name, j)
    }
}

/// No adapter name contains `name`.
pub open spec fn matches_none(names: Seq<String>, name: Seq<char>) -> bool {
    forall|j: int| 0 <= j < names.len() ==> !#[trigger] names_partly(names, name, j)
}

/// A byte string contains another of its length only when they are equal.
proof fn lemma_contains_same_length(hay: Seq<u8>, needle: Seq<u8>)
    ensures
        hay == needle ==> contains_bytes(hay, needle),
        contains_bytes(hay, needle) && hay.len() == needle.len() ==> hay == needle,
{
    if hay == needle {
        assert(hay.subrange(0, needle.len() as int) =~= hay);
        assert(occurs_at(hay, needle, 0));
    }
    if contains_bytes(hay, needle) && hay.len() == needle.len() {
        let k = choose|k: int| occurs_at(hay, needle, k);
        assert(k == 0);
        assert(hay.subrange(0, needle.len() as int) =~= hay);
    }
}

/// The adapter that `name` picks, if any name contains it.
pub fn find_adapter(names: &Vec<String>, name: &str) -> (found: Option<usize>)
    ensures
        match found {
            Some(i) => picks(names@, name@, i as int),
            None => matches_none(names@, name@),
        },
{
    let wanted = name.as_bytes();
    let mut fuzzy: Option<usize> = None;
    let mut i: usize = 0;
    while i < names.len()
        invariant
            i <= names@.len(),
            wanted@ == utf8_of(name@),
            forall|j: int| 0 <= j < i ==> !#[trigger] names_exactly(names@, name@, j),
            match fuzzy {
                Some(f) => f < i && names_partly(names@, name@, f as int) && forall|j: int|
                    0 <= j < f ==> !#[trigger] names_partly(names@, name@, j),
                None => forall|j: int| 0 <= j < i ==> !#[trigger] names_partly(names@, name@, j),
            },
        decreases names@.len() - i,
    {
        let candidate = names[i].as_str().as_bytes();
        proof {
            lemma_contains_same_length(candidate@, wanted@);
        }
        if bytes_contain(candidate, wanted) {
            if fuzzy.is_none() {
                fuzzy = Some(i);
            }
            if candidate.len() == wanted.len() {
                return Some(i);
            }
        }
        i = i + 1;
    }
    fuzzy
}

/// The adapter that `selection` picks among adapters named `names`: with
/// `Any`, the first adapter if there is one; with `Index`, that adapter;
/// with `PartialName`, the adapter that the name picks, or `AdapterNotFound`
/// when no adapter name contains it.
pub fn select_adapter(names: &Vec<String>, selection: AdapterSelection) -> (picked: Result<Option<usize>, AdapterNotFound>)
    requires
        selection matches AdapterSelection::Index(i) ==> i < names@.len(),
    ensures
        match selection {
            AdapterSelection::Any => picked matches Ok(p) && p == (if names@.len() == 0 {
                None::<usize>
            } else {
                Some(0usize)
            }),
            AdapterSelection::Index(i) => picked matches Ok(p) && p == Some(i),
            AdapterSelection::PartialName(name) => match picked {
                Ok(Some(i)) => picks(names@, name@, i as int),
                Ok(None) => false,
                Err(_) => matches_none(names@, name@),
            },
        },
{
    match selection {
        AdapterSelection::Any => {
            if names.len() == 0 {
                Ok(None)
            } else {
                Ok(Some(0))
            }
        },
        AdapterSelection::Index(i) => Ok(Some(i)),
        AdapterSelection::PartialName(name) => match find_adapter(names, name) {
            Some(i) => Ok(Some(i)),
            None => Err(AdapterNotFound),
        },
    }
}

} // verus!
