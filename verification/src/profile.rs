//! Selection of a project rule profile, with silent fallback to a default.

use vstd::prelude::*;

verus! {

/// A named rule profile adjusting usage classification.
pub struct ProjectConfiguration {
    pub name: String,
}

impl Default for ProjectConfiguration {
    /// The profile used when none could be selected.
    fn default() -> (r: Self)
        ensures
            r.name@ == "default"@,
    {
        ProjectConfiguration { name: "default".to_owned() }
    }
}

/// The well-known file name of the user-level configuration store, looked up
/// under the home directory.
pub fn configuration_file_name() -> (r: String)
    ensures
        r@ == ".unused.yml"@,
{
    ".unused.yml".to_owned()
}

/// The fixed profile name looked up in the store on every run.
pub fn configuration_profile_key() -> (r: String)
    ensures
        r@ == "Rails"@,
{
    "Rails".to_owned()
}

/// The first profile whose name is `key`, if any.
pub open spec fn find_profile(
    profiles: Seq<ProjectConfiguration>,
    key: Seq<char>,
) -> Option<int>
    decreases profiles.len(),
{
    if profiles.len() == 0 {
        None
    } else if profiles[0].name@ == key {
        Some(0int)
    } else {
        match find_profile(profiles.skip(1), key) {
            Some(i) => Some(i + 1),
            None => None,
        }
    }
}

/// Selects the profile named `key` from a parsed configuration store, the
/// first one when several share the name. Every failure mode — no store
/// contents at all, or no profile of that name — collapses to the default
/// profile; selection itself can never fail.
pub fn choose_profile(store: Option<Vec<ProjectConfiguration>>, key: &String) -> (r:
    ProjectConfiguration)
    ensures
        match store {
            Some(profiles) => match find_profile(profiles@, key@) {
                Some(i) => r == profiles@[i],
                None => r.name@ == "default"@,
            },
            None => r.name@ == "default"@,
        },
{
    match store {
        Some(profiles) => {
            let ghost all = profiles@;
            let mut rest = profiles;
            let ghost mut skipped: int = 0;
            proof {
                assert(rest@ =~= all.skip(0));
            }
            #[verifier::loop_isolation(false)]
            while rest.len() > 0
                invariant
                    0 <= skipped <= all.len(),
                    rest@ == all.skip(skipped),
                    find_profile(all, key@) == (match find_profile(rest@, key@) {
                        Some(i) => Some(i + skipped),
                        None => Option::<int>::None,
                    }),
                decreases rest@.len(),
            {
                let ghost old_rest = rest@;
                let candidate = rest.remove(0);
                proof {
                    assert(candidate == old_rest[0]);
                    assert(rest@ =~= old_rest.skip(1));
                    assert(old_rest[0] == all[skipped]);
                }
                if candidate.name.eq(key) {
                    proof {
                        assert(find_profile(old_rest, key@) == Some(0int));
                        assert(find_profile(all, key@) == Some(skipped));
                        assert(0 <= skipped < all.len());
                        assert(all[skipped] == candidate);
                    }
                    return candidate;
                }
                proof {
                    assert(candidate.name@ != key@);
                    assert(all.skip(skipped).skip(1) =~= all.skip(skipped + 1));
                    skipped = skipped + 1;
                }
            }
            proof {
                assert(rest@.len() == 0);
                assert(find_profile(rest@, key@) is None);
                assert(find_profile(all, key@) is None);
            }
            ProjectConfiguration::default()
        },
        None => ProjectConfiguration::default(),
    }
}

} // verus!
