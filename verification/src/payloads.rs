use vstd::prelude::*;

use crate::decimal::{decimal_digits, decimal_string, lemma_decimal_injective};

verus! {

/// The form of a `GetPublishedFileDetails` request: the number of items and one
/// `publishedfileids[i]` entry per workshop ID.
///
/// The entries are kept in index order; their keys are pairwise distinct.
#[derive(Clone, Debug, Default, PartialEq, Eq)]
pub struct PublishedFileDetailsRequest {
    pub itemcount: usize,
    pub publishedfileids: Vec<(String, u64)>,
}

/// The form key of the `i`-th workshop ID: `publishedfileids[i]`.
pub open spec fn publishedfileids_key(i: nat) -> Seq<char> {
    "publishedfileids["@ + decimal_digits(i) + "]"@
}

/// `entries` holds exactly one entry per ID of `ids`, in order, keyed by its index.
pub open spec fn is_publishedfileids(entries: Seq<(String, u64)>, ids: Seq<u64>) -> bool {
    &&& entries.len() == ids.len()
    &&& forall|i: int|
        0 <= i < ids.len() ==> {
            &&& (#[trigger] entries[i]).0@ == publishedfileids_key(i as nat)
            &&& entries[i].1 == ids[i]
        }
}

/// Distinct indices give distinct form keys.
pub proof fn lemma_publishedfileids_key_injective(i: nat, j: nat)
    requires
        publishedfileids_key(i) == publishedfileids_key(j),
    ensures
        i == j,
{
    let p = "publishedfileids["@;
    let q = "]"@;
    let a = publishedfileids_key(i);
    let b = publishedfileids_key(j);
    assert(a.len() == p.len() + decimal_digits(i).len() + q.len());
    assert(b.len() == p.len() + decimal_digits(j).len() + q.len());
    assert(decimal_digits(i).len() == decimal_digits(j).len());
    assert(decimal_digits(i) =~= a.subrange(p.len() as int, p.len() + decimal_digits(i).len() as int));
    assert(decimal_digits(j) =~= b.subrange(p.len() as int, p.len() + decimal_digits(j).len() as int));
    lemma_decimal_injective(i, j);
}

/// The keys of the request's entries are pairwise distinct.
pub proof fn lemma_publishedfileids_keys_distinct(entries: Seq<(String, u64)>, ids: Seq<u64>)
    requires
        is_publishedfileids(entries, ids),
    ensures
        forall|i: int, j: int|
            0 <= i < entries.len() && 0 <= j < entries.len() && i != j
                ==> (#[trigger] entries[i]).0@ != (#[trigger] entries[j]).0@,
{
    assert forall|i: int, j: int|
        0 <= i < entries.len() && 0 <= j < entries.len() && i != j
            implies (#[trigger] entries[i]).0@ != (#[trigger] entries[j]).0@ by {
        if entries[i].0@ == entries[j].0@ {
            lemma_publishedfileids_key_injective(i as nat, j as nat);
        }
    }
}

/// The form entries `publishedfileids[i] = workshop_ids[i]` for every index `i`.
pub fn create_publishedfileids(workshop_ids: &[u64]) -> (entries: Vec<(String, u64)>)
    ensures
        is_publishedfileids(entries@, workshop_ids@),
{
    let mut entries: Vec<(String, u64)> = Vec::new();
    let n = workshop_ids.len();
    for i in 0..n
        invariant
            n == workshop_ids@.len(),
            entries@.len() == i,
            forall|k: int|
                0 <= k < i ==> {
                    &&& (#[trigger] entries@[k]).0@ == publishedfileids_key(k as nat)
                    &&& entries@[k].1 == workshop_ids@[k]
                },
    {
        let mut key = String::from_str("publishedfileids[");
        let index = decimal_string(i as u64);
        key.append(index.as_str());
        key.append("]");
        entries.push((key, workshop_ids[i]));
    }
    entries
}

impl PublishedFileDetailsRequest {
    /// The request for the details of `workshop_ids`.
    pub fn new(workshop_ids: &[u64]) -> (req: Self)
        ensures
            req.itemcount == workshop_ids@.len(),
            is_publishedfileids(req.publishedfileids@, workshop_ids@),
    {
        PublishedFileDetailsRequest {
            itemcount: workshop_ids.len(),
            publishedfileids: create_publishedfileids(workshop_ids),
        }
    }
}

/// The body of a `GetPublishedFileDetails` response.
#[derive(Clone, Debug, Default, PartialEq, Eq)]
pub struct PublishedFileDetailsResponse {
    pub response: PublishedFileDetailsResponseResponse,
}

/// The `response` object of a `GetPublishedFileDetails` response.
#[derive(Clone, Debug, Default, PartialEq, Eq)]
pub struct PublishedFileDetailsResponseResponse {
    pub publishedfiledetails: Vec<FileDetails>,
}

/// The details of one workshop item: either its metadata, or the result code that
/// says why there is none.
#[derive(Clone, Debug, PartialEq, Eq)]
pub enum FileDetails {
    Item { publishedfileid: String, title: String, file_size: String, tags: Vec<Tag> },
    Failed { publishedfileid: String, result: u64 },
}

/// A tag of a workshop item.
#[derive(Clone, Debug, Default, PartialEq, Eq)]
pub struct Tag {
    pub tag: String,
}

} // verus!
