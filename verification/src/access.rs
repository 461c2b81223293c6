//! The access gate: an additive allow-list of (identity, resource path)
//! pairs, consulted before any decrypt on behalf of an identity.

use vstd::prelude::*;

use crate::store::str_eq;

verus! {

/// The set of grants: each is an identity allowed to read a resource path.
pub struct AccessControl {
    grants: Vec<(String, String)>,
}

/// The set of (identity, path) pairs the grants denote.
pub open spec fn grant_set(s: Seq<(String, String)>) -> Set<(Seq<char>, Seq<char>)>
    decreases s.len(),
{
    if s.len() == 0 {
        Set::empty()
    } else {
        grant_set(s.drop_last()).insert((s.last().0@, s.last().1@))
    }
}

pub proof fn lemma_grant_set_contains(s: Seq<(String, String)>, g: (Seq<char>, Seq<char>))
    ensures
        grant_set(s).contains(g) <==> exists|i: int|
            0 <= i < s.len() && ((#[trigger] s[i]).0@, s[i].1@) == g,
    decreases s.len(),
{
    if s.len() == 0 {
    } else {
        let dl = s.drop_last();
        lemma_grant_set_contains(dl, g);
        if (s.last().0@, s.last().1@) == g {
            assert((s[s.len() - 1].0@, s[s.len() - 1].1@) == g);
        } else {
            if exists|i: int| 0 <= i < s.len() && ((#[trigger] s[i]).0@, s[i].1@) == g {
                let i = choose|i: int| 0 <= i < s.len() && ((#[trigger] s[i]).0@, s[i].1@) == g;
                assert((dl[i].0@, dl[i].1@) == g);
            }
            if grant_set(dl).contains(g) {
                let i = choose|i: int| 0 <= i < dl.len() && ((#[trigger] dl[i]).0@, dl[i].1@) == g;
                assert((s[i].0@, s[i].1@) == g);
            }
        }
    }
}

impl View for AccessControl {
    type V = Set<(Seq<char>, Seq<char>)>;

    closed spec fn view(&self) -> Set<(Seq<char>, Seq<char>)> {
        grant_set(self.grants@)
    }
}

impl AccessControl {
    /// Creates a gate with no grants: every check is denied.
    pub fn new() -> (r: Self)
        ensures
            r@ == Set::<(Seq<char>, Seq<char>)>::empty(),
    {
        AccessControl { grants: Vec::new() }
    }

    /// Decides whether `identity` was granted `path`: an exact match on both
    /// fields, nothing else.
    pub fn has_access(&self, identity: &str, path: &str) -> (r: bool)
        ensures
            r == self@.contains((identity@, path@)),
    {
        proof {
            lemma_grant_set_contains(self.grants@, (identity@, path@));
        }
        let n = self.grants.len();
        let mut i: usize = 0;
        while i < n
            invariant
                n == self.grants@.len(),
                0 <= i <= n,
                forall|j: int|
                    0 <= j < i ==> ((#[trigger] self.grants@[j]).0@, self.grants@[j].1@) != (
                    identity@,
                    path@,
                ),
            decreases n - i,
        {
            if str_eq(self.grants[i].0.as_str(), identity) && str_eq(
                self.grants[i].1.as_str(),
                path,
            ) {
                proof {
                    lemma_grant_set_contains(self.grants@, (identity@, path@));
                    assert(((self.grants@[i as int]).0@, (self.grants@[i as int]).1@) == (
                        identity@,
                        path@,
                    ));
                }
                return true;
            }
            i += 1;
        }
        false
    }

    /// Adds the grant (identity, path), idempotently: afterwards the set of
    /// grants is the old set with exactly this pair added.
    pub fn grant_access(&mut self, identity: String, path: String)
        ensures
            final(self)@ == old(self)@.insert((identity@, path@)),
    {
        let ghost g = (identity@, path@);
        let ghost s0 = self.grants@;
        if self.has_access(identity.as_str(), path.as_str()) {
            proof {
                assert(grant_set(s0).insert(g) =~= grant_set(s0));
            }
            return;
        }
        self.grants.push((identity, path));
        proof {
            assert(self.grants@.drop_last() =~= s0);
            assert((self.grants@.last().0@, self.grants@.last().1@) == g);
        }
    }
}

/// Law: after a grant, a check for the same identity and path succeeds, and
/// a check for any other (identity, path) pair answers exactly as before the
/// grant — in particular, the same identity on another path, or another
/// identity on the same path, stays denied unless it was granted earlier.
pub proof fn lemma_access_gate(
    grants: Set<(Seq<char>, Seq<char>)>,
    identity: Seq<char>,
    path: Seq<char>,
    other_identity: Seq<char>,
    other_path: Seq<char>,
)
    ensures
        grants.insert((identity, path)).contains((identity, path)),
        (other_identity, other_path) != (identity, path) ==> (grants.insert(
            (identity, path),
        ).contains((other_identity, other_path)) <==> grants.contains(
            (other_identity, other_path),
        )),
{
}

} // verus!
