//! References to remote repositories, of the shape `owner/name`.
use vstd::prelude::*;
use vstd::string::*;

verus! {

/// The character that parts the owner from the repository's name.
pub open spec fn separator() -> char {
    '/'
}

/// `s` holds exactly one separator, at position `p`, with at least one
/// character on either side of it.
pub open spec fn splits_at(s: Seq<char>, p: int) -> bool {
    &&& 0 < p < s.len() - 1
    &&& s[p] == separator()
    &&& forall|i: int| 0 <= i < s.len() && i != p ==> s[i] != separator()
}

/// `s` is a well-formed reference: two non-empty segments around one separator.
pub open spec fn is_reference(s: Seq<char>) -> bool {
    exists|p: int| splits_at(s, p)
}

/// The position of the separator in a well-formed reference.
pub open spec fn separator_position(s: Seq<char>) -> int {
    choose|p: int| splits_at(s, p)
}

/// The repository's name: what follows the separator.
pub open spec fn repository_name(s: Seq<char>) -> Seq<char> {
    s.subrange(separator_position(s) + 1, s.len() as int)
}

/// A reference splits at one position only.
pub proof fn lemma_split_unique(s: Seq<char>, p: int, q: int)
    requires
        splits_at(s, p),
        splits_at(s, q),
    ensures
        p == q,
{
}

/// Decides whether `reference` has the shape `owner/name` and, if so, gives
/// the name back.
pub fn valid_repository_reference(reference: &str) -> (res: Option<String>)
    ensures
        res is Some <==> is_reference(reference@),
        res matches Some(name) ==> name@ == repository_name(reference@),
{
    let n: usize = reference.unicode_len();
    let mut found: Option<usize> = None;
    let mut i: usize = 0;
    while i < n
        invariant
            i <= n,
            n == reference@.len(),
            found is None ==> forall|j: int| 0 <= j < i ==> reference@[j] != separator(),
            found matches Some(p) ==> {
                &&& p < i
                &&& reference@[p as int] == separator()
                &&& forall|j: int| 0 <= j < i && j != p ==> reference@[j] != separator()
            },
        decreases n - i,
    {
        if reference.get_char(i) == '/' {
            if found.is_some() {
                proof {
                    let p: int = found.unwrap() as int;
                    assert forall|q: int| !splits_at(reference@, q) by {
                        if splits_at(reference@, q) {
                            if q == p {
                                assert(reference@[i as int] == separator());
                            } else {
                                assert(reference@[p] == separator());
                            }
                        }
                    }
                }
                return None;
            }
            found = Some(i);
        }
        i += 1;
    }
    match found {
        None => {
            proof {
                assert forall|q: int| !splits_at(reference@, q) by {}
            }
            None
        },
        Some(p) => {
            if p == 0 || p + 1 == n {
                proof {
                    assert forall|q: int| !splits_at(reference@, q) by {
                        if splits_at(reference@, q) {
                            assert(q == p);
                        }
                    }
                }
                None
            } else {
                proof {
                    assert(splits_at(reference@, p as int));
                    lemma_split_unique(reference@, p as int, separator_position(reference@));
                }
                let name: &str = reference.substring_char(p + 1, n);
                Some(name.to_owned())
            }
        },
    }
}

/// The text of the address from which the repository `reference` is cloned.
pub open spec fn clone_address(reference: Seq<char>) -> Seq<char> {
    "https://github.com/"@ + reference
}

/// The address from which the repository `reference` is cloned.
pub fn clone_url(reference: &str) -> (url: String)
    ensures
        url@ == clone_address(reference@),
{
    let mut url = String::from_str("https://github.com/");
    url.append(reference);
    url
}

/// The directory under `base` into which the repository `name` is cloned.
pub fn clone_target(base: &str, name: &str) -> (path: String)
    ensures
        path@ == base@ + "/"@ + name@,
{
    let mut path = String::from_str(base);
    path.append("/");
    path.append(name);
    path
}

} // verus!
