//! Comparing scanned mentions against canonical records.
//!
//! A mention is checked against the canonical record for its id under two
//! strictness switches. A mention whose id has no canonical record — a
//! restricted or unknown account — is not an error: it is silently excluded.

#![allow(unused_imports)]
use std::collections::HashMap;
use vstd::prelude::*;

verus! {

broadcast use vstd::std_specs::hash::group_hash_axioms;

use crate::User;
use crate::markdown::MentionV;
use crate::markdown::UserMention;
use crate::markdown::mentions_view;

/// One way a mention can disagree with its canonical record.
#[derive(Clone, Copy, Debug, PartialEq, Eq, Structural)]
pub enum DiscrepancyKind {
    WrongUsername,
    MissingCountry,
    WrongCountry,
}

/// What it means for a mention to agree with the canonical record `u`:
/// the username matches when usernames are checked, and the country
/// annotation — required or not — is never present and wrong.
pub open spec fn valid_spec(u: User, m: MentionV, country_required: bool, name_required: bool) -> bool {
    &&& (!name_required || u.username@ == m.username)
    &&& match m.country {
        Some(c) => u.country_code@ == c.text,
        None => !country_required,
    }
}

/// Every way the mention disagrees with the canonical record `u`, evaluated
/// independently: the username facet first, then the country facet. A wrong
/// country code is flagged whenever one is present, required or not.
pub open spec fn facets_spec(u: User, m: MentionV, country_required: bool, name_required: bool) -> Seq<
    DiscrepancyKind,
> {
    (if name_required && u.username@ != m.username {
        seq![DiscrepancyKind::WrongUsername]
    } else {
        Seq::empty()
    }) + (match m.country {
        None => {
            if country_required {
                seq![DiscrepancyKind::MissingCountry]
            } else {
                Seq::empty()
            }
        },
        Some(c) => {
            if c.text != u.country_code@ {
                seq![DiscrepancyKind::WrongCountry]
            } else {
                Seq::empty()
            }
        },
    })
}

/// A mention agrees with its canonical record exactly when it produces no
/// discrepancy facet.
pub proof fn lemma_valid_iff_no_facets(
    u: User,
    m: MentionV,
    country_required: bool,
    name_required: bool,
)
    ensures
        valid_spec(u, m, country_required, name_required) <==> facets_spec(
            u,
            m,
            country_required,
            name_required,
        ).len() == 0,
{
}

/// Checks one mention against the canonical record for its id, if there is
/// one. No record means no discrepancy: the mention is excluded, never
/// reported. With a record, the facets come in a fixed order — username
/// first, then country — and an empty facet list is reported as no
/// discrepancy at all.
pub fn validate(
    mention: &UserMention,
    canonical: Option<&User>,
    country_required: bool,
    name_required: bool,
) -> (r: Option<Vec<DiscrepancyKind>>)
    ensures
        canonical is None ==> r is None,
        canonical matches Some(u) ==> (match r {
            Some(v) => v@ == facets_spec(*u, mention@, country_required, name_required)
                && v@.len() > 0,
            None => facets_spec(*u, mention@, country_required, name_required).len() == 0,
        }),
{
    match canonical {
        None => None,
        Some(u) => {
            let mut facets: Vec<DiscrepancyKind> = Vec::new();
            if name_required && !(u.username == mention.username.text) {
                facets.push(DiscrepancyKind::WrongUsername);
            }
            match &mention.country_code {
                None => {
                    if country_required {
                        facets.push(DiscrepancyKind::MissingCountry);
                    }
                },
                Some(country) => {
                    if !(country.text == u.country_code) {
                        facets.push(DiscrepancyKind::WrongCountry);
                    }
                },
            }
            proof {
                assert(facets@ =~= facets_spec(*u, mention@, country_required, name_required));
            }
            if facets.len() == 0 {
                None
            } else {
                Some(facets)
            }
        },
    }
}

/// Whether the mention `m` is reported: its id has a canonical record, and
/// the mention disagrees with it.
pub open spec fn is_bad(m: MentionV, data: Map<i32, User>, country_required: bool, name_required: bool) -> bool {
    &&& data.contains_key(m.id as i32)
    &&& !valid_spec(data[m.id as i32], m, country_required, name_required)
}

/// The positions of the reported mentions, in order.
pub open spec fn bad_indices(
    ms: Seq<MentionV>,
    data: Map<i32, User>,
    country_required: bool,
    name_required: bool,
) -> Seq<int>
    decreases ms.len(),
{
    if ms.len() == 0 {
        Seq::empty()
    } else {
        bad_indices(ms.drop_last(), data, country_required, name_required) + (if is_bad(
            ms.last(),
            data,
            country_required,
            name_required,
        ) {
            seq![ms.len() - 1]
        } else {
            Seq::empty()
        })
    }
}

/// Picks out the mentions to report: exactly those whose id has a canonical
/// record and which disagree with it. Mentions without a record are dropped,
/// so everything reported is backed by a canonical record.
pub fn find_bad_mentions(
    mentions: &Vec<UserMention>,
    data: &HashMap<i32, User>,
    country_required: bool,
    name_required: bool,
) -> (r: Vec<usize>)
    ensures
        r@.map_values(|t: usize| t as int) == bad_indices(
            mentions_view(mentions@),
            data@,
            country_required,
            name_required,
        ),
{
    let ghost ms = mentions_view(mentions@);
    let mut r: Vec<usize> = Vec::new();
    proof {
        assert(r@.map_values(|t: usize| t as int) =~= Seq::<int>::empty());
        assert(ms.take(0) =~= Seq::<MentionV>::empty());
    }
    let mut i: usize = 0;
    while i < mentions.len()
        invariant
            ms == mentions_view(mentions@),
            i <= mentions@.len(),
            ms.len() == mentions@.len(),
            r@.map_values(|t: usize| t as int) == bad_indices(
                ms.take(i as int),
                data@,
                country_required,
                name_required,
            ),
        decreases mentions@.len() - i,
    {
        let mention = &mentions[i];
        proof {
            assert(ms[i as int] == mention@);
        }
        let mut bad = false;
        match data.get(&mention.id.num) {
            Some(u) => {
                if !u.valid(mention, country_required, name_required) {
                    bad = true;
                }
                proof {
                    assert(mention@.id as i32 == mention.id.num);
                }
            },
            None => {
                proof {
                    assert(mention@.id as i32 == mention.id.num);
                }
            },
        }
        let ghost r0 = r@;
        if bad {
            r.push(i);
        }
        proof {
            assert(ms.take(i + 1).drop_last() =~= ms.take(i as int));
            assert(ms.take(i + 1).last() == ms[i as int]);
            if bad {
                assert(r@.map_values(|t: usize| t as int) =~= r0.map_values(
                    |t: usize| t as int,
                ).push(i as int));
            }
        }
        i += 1;
    }
    proof {
        assert(ms.take(ms.len() as int) =~= ms);
    }
    r
}

} // verus!
