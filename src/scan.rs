//! Selection of plugin candidates among the entries of one root directory.
use vstd::prelude::*;

verus! {

/// File name that marks a directory as a plugin.
pub const DESCRIPTOR_FILE: &'static str = "plugin.ron";

/// What the directory read reports of one entry of a root.
pub struct EntryInfo {
    /// Full path of the entry.
    pub source: String,
    /// The entry is a directory (links followed).
    pub is_dir: bool,
    /// A file named `DESCRIPTOR_FILE` exists inside the entry.
    pub has_descriptor: bool,
}

/// The path that `Path::join` gives for `name` under `base`.
pub uninterp spec fn joined_path(base: Seq<char>, name: Seq<char>) -> Seq<char>;

/// Relies on `std::path::Path::join`: the path of `name` under `base`.
#[verifier::external_body]
fn join_path(base: &str, name: &str) -> (r: String)
    ensures
        r@ == joined_path(base@, name@),
{
    std::path::Path::new(base).join(name).to_string_lossy().into_owned()
}

/// The descriptor path inside `source`.
pub open spec fn descriptor_of(source: Seq<char>) -> Seq<char> {
    joined_path(source, DESCRIPTOR_FILE@)
}

/// An entry is a candidate when it could be read, is a directory and holds
/// the descriptor file.
pub open spec fn qualifies(e: Option<EntryInfo>) -> bool {
    match e {
        Some(info) => info.is_dir && info.has_descriptor,
        None => false,
    }
}

/// The (source directory, descriptor path) pair of an entry.
pub open spec fn candidate_spec(info: EntryInfo) -> (Seq<char>, Seq<char>) {
    (info.source@, descriptor_of(info.source@))
}

/// The candidates among `entries`, in the order of the entries.
pub open spec fn entries_candidates(entries: Seq<Option<EntryInfo>>) -> Seq<(Seq<char>, Seq<char>)>
    decreases entries.len(),
{
    if entries.len() == 0 {
        Seq::empty()
    } else {
        let rest = entries_candidates(entries.drop_last());
        if qualifies(entries.last()) {
            rest.push(candidate_spec(entries.last()->Some_0))
        } else {
            rest
        }
    }
}

/// The candidates of a root: none where the root could not be read.
pub open spec fn root_candidates(listing: Option<Seq<Option<EntryInfo>>>) -> Seq<(Seq<char>, Seq<char>)> {
    match listing {
        Some(entries) => entries_candidates(entries),
        None => Seq::empty(),
    }
}

/// A sequence of path pairs as character sequences.
pub open spec fn pairs_view(v: Seq<(String, String)>) -> Seq<(Seq<char>, Seq<char>)> {
    v.map_values(|p: (String, String)| (p.0@, p.1@))
}

/// The entries of a listing, as a sequence.
pub open spec fn listing_view(listing: Option<Vec<Option<EntryInfo>>>) -> Option<Seq<Option<EntryInfo>>> {
    match listing {
        Some(v) => Some(v@),
        None => None,
    }
}

/// The candidate that one entry gives, if any.
pub fn candidate_of(info: &EntryInfo) -> (r: Option<(String, String)>)
    ensures
        r.is_some() == (info.is_dir && info.has_descriptor),
        r.is_some() ==> (r->Some_0.0@, r->Some_0.1@) == candidate_spec(*info),
{
    if info.is_dir && info.has_descriptor {
        let descriptor = join_path(info.source.as_str(), DESCRIPTOR_FILE);
        Some((info.source.clone(), descriptor))
    } else {
        None
    }
}

/// The candidates of one root, in the order in which its entries were listed.
/// `None` stands for a root that could not be opened, and an entry `None` for
/// one that could not be inspected: both are skipped.
pub fn from_path(listing: &Option<Vec<Option<EntryInfo>>>) -> (r: Vec<(String, String)>)
    ensures
        pairs_view(r@) == root_candidates(listing_view(*listing)),
{
    let mut out: Vec<(String, String)> = Vec::new();
    match listing {
        None => {
            proof {
                assert(pairs_view(out@) =~= Seq::empty());
            }
        },
        Some(entries) => {
            let mut i: usize = 0;
            while i < entries.len()
                invariant
                    i <= entries.len(),
                    pairs_view(out@) == entries_candidates(entries@.take(i as int)),
                decreases entries.len() - i,
            {
                proof {
                    assert(entries@.take(i + 1).drop_last() =~= entries@.take(i as int));
                }
                match &entries[i] {
                    Some(info) => {
                        match candidate_of(info) {
                            Some(c) => {
                                out.push(c);
                                proof {
                                    assert(pairs_view(out@) =~= entries_candidates(entries@.take(i + 1)));
                                }
                            },
                            None => {},
                        }
                    },
                    None => {},
                }
                i = i + 1;
            }
            proof {
                assert(entries@.take(entries.len() as int) =~= entries@);
            }
        },
    }
    out
}

} // verus!
