use vstd::prelude::*;
use crate::codec::decode_proposal;
use crate::codec::encode_proposal;
use crate::codec::lemma_encode_len;
use crate::codec::lemma_round_trip;
use crate::codec::lemma_voters_len_bounds;
use crate::codec::spec_decode;
use crate::codec::spec_encode;
use crate::codec::MAX_RECORD_SIZE;
use crate::proposal::contains_principal;
use crate::proposal::edited_model;
use crate::proposal::ended_model;
use crate::proposal::fresh_proposal_model;
use crate::proposal::no_duplicate_voters;
use crate::proposal::proposal_wf;
use crate::proposal::voted_model;
use crate::proposal::Choice;
use crate::proposal::CreateProposal;
use crate::proposal::Principal;
use crate::proposal::Proposal;
use crate::proposal::ProposalModel;
use crate::proposal::VoteError;
use ic_stable_structures::memory_manager::MemoryId;
use ic_stable_structures::memory_manager::MemoryManager;
use ic_stable_structures::memory_manager::VirtualMemory;
use ic_stable_structures::DefaultMemoryImpl;
use ic_stable_structures::StableBTreeMap;

verus! {

/// The proposal map: an ordered map from 64-bit keys to encoded records, kept
/// in one region of a durable page store.
#[verifier::external_body]
pub struct ProposalStore {
    map: StableBTreeMap<u64, Vec<u8>, VirtualMemory<DefaultMemoryImpl>>,
}

/// The encoded records the store holds, keyed by proposal key.
pub uninterp spec fn store_contents(s: ProposalStore) -> Map<u64, Seq<u8>>;

/// Every stored byte string is the encoding of a well-formed record within
/// the size bound.
pub open spec fn store_wf(s: ProposalStore) -> bool {
    &&& store_contents(s).dom().finite()
    &&& forall|k: u64| #[trigger] store_contents(s).contains_key(k) ==> {
        &&& spec_decode(store_contents(s)[k]) is Some
        &&& store_contents(s)[k] == spec_encode(spec_decode(store_contents(s)[k]).unwrap())
        &&& store_contents(s)[k].len() <= MAX_RECORD_SIZE
        &&& proposal_wf(spec_decode(store_contents(s)[k]).unwrap())
    }
}

/// The records the store holds, as values.
pub open spec fn store_view(s: ProposalStore) -> Map<u64, ProposalModel> {
    Map::new(
        |k: u64| store_contents(s).contains_key(k),
        |k: u64| spec_decode(store_contents(s)[k]).unwrap(),
    )
}

impl ProposalStore {
    /// Opens the proposal map over region 0 of the durable page store.
    ///
    /// Relies on `MemoryManager::init`, `MemoryManager::get`, `MemoryId::new`
    /// and `BTreeMap::init` of ic_stable_structures: initialization is
    /// idempotent, and `BTreeMap::init` loads whatever map the region already
    /// holds (over a freshly created memory, an empty one). Trusted
    /// assumption: region 0 holds only records this library wrote, so every
    /// stored byte string is a bounded encoding of a well-formed record.
    #[verifier::external_body]
    pub fn new() -> (r: ProposalStore)
        ensures
            store_wf(r),
    {
        let manager = MemoryManager::init(DefaultMemoryImpl::default());
        let memory = manager.get(MemoryId::new(0));
        ProposalStore { map: StableBTreeMap::init(memory) }
    }
}

/// Relies on `BTreeMap::get` of ic_stable_structures: returns the value
/// stored at the key, or nothing when the key is absent.
#[verifier::external_body]
fn store_get(s: &ProposalStore, key: u64) -> (r: Option<Vec<u8>>)
    ensures
        match r {
            Some(v) => store_contents(*s).contains_key(key) && v@ == store_contents(*s)[key],
            None => !store_contents(*s).contains_key(key),
        },
{
    s.map.get(&key)
}

/// Relies on `BTreeMap::insert` of ic_stable_structures: stores the value at
/// the key and returns the previous value at that key, if any.
#[verifier::external_body]
fn store_insert(s: &mut ProposalStore, key: u64, value: Vec<u8>) -> (prev: Option<Vec<u8>>)
    ensures
        store_contents(*final(s)) == store_contents(*old(s)).insert(key, value@),
        match prev {
            Some(v) => store_contents(*old(s)).contains_key(key) && v@ == store_contents(
                *old(s),
            )[key],
            None => !store_contents(*old(s)).contains_key(key),
        },
{
    s.map.insert(key, value)
}

/// Relies on `BTreeMap::len` of ic_stable_structures: the number of entries
/// in the map.
#[verifier::external_body]
fn store_len(s: &ProposalStore) -> (n: u64)
    ensures
        n as nat == store_contents(*s).dom().len(),
{
    s.map.len()
}

/// In a record within the size bound, the voter list is short and every tally
/// has headroom.
proof fn lemma_tally_headroom(m: ProposalModel)
    requires
        proposal_wf(m),
        spec_encode(m).len() <= MAX_RECORD_SIZE,
    ensures
        m.voted.len() <= 1250,
        m.approve < 0xffff_ffffu32,
        m.reject < 0xffff_ffffu32,
        m.pass < 0xffff_ffffu32,
{
    lemma_encode_len(m);
    lemma_voters_len_bounds(m.voted);
}

/// A successful vote moves exactly the chosen tally up by one, appends the
/// voter, and leaves the description, activity flag and owner untouched.
pub proof fn lemma_vote_changes_one_tally(m: ProposalModel, voter: Seq<u8>, choice: Choice)
    requires
        proposal_wf(m),
        spec_encode(m).len() <= MAX_RECORD_SIZE,
    ensures
        voted_model(m, voter, choice).description == m.description,
        voted_model(m, voter, choice).is_active == m.is_active,
        voted_model(m, voter, choice).owner == m.owner,
        voted_model(m, voter, choice).voted == m.voted.push(voter),
        choice is Approve ==> voted_model(m, voter, choice).approve == m.approve + 1
            && voted_model(m, voter, choice).reject == m.reject && voted_model(
            m,
            voter,
            choice,
        ).pass == m.pass,
        choice is Reject ==> voted_model(m, voter, choice).reject == m.reject + 1
            && voted_model(m, voter, choice).approve == m.approve && voted_model(
            m,
            voter,
            choice,
        ).pass == m.pass,
        choice is Pass ==> voted_model(m, voter, choice).pass == m.pass + 1 && voted_model(
            m,
            voter,
            choice,
        ).approve == m.approve && voted_model(m, voter, choice).reject == m.reject,
{
    lemma_tally_headroom(m);
}

/// The count follows the distinct keys: creating at a fresh key grows the
/// map by one entry, while re-creating at a present key overwrites and leaves
/// the count unchanged.
pub proof fn lemma_create_count(v: Map<u64, ProposalModel>, key: u64, m: ProposalModel)
    requires
        v.dom().finite(),
    ensures
        v.insert(key, m).dom().len() == v.dom().len() + (if v.contains_key(key) {
            0int
        } else {
            1int
        }),
{
    assert(v.insert(key, m).dom() =~= v.dom().insert(key));
    vstd::set::axiom_set_insert_len(v.dom(), key);
}

impl ProposalStore {
    /// Whether a freshly created record with this owner and description would
    /// fit the size bound.
    pub fn create_fits(caller: &Principal, proposal: &CreateProposal) -> (r: bool)
        ensures
            r == (spec_encode(
                fresh_proposal_model(caller@, proposal.description@, proposal.is_active),
            ).len() <= MAX_RECORD_SIZE),
    {
        proof {
            lemma_encode_len(
                fresh_proposal_model(caller@, proposal.description@, proposal.is_active),
            );
        }
        let owner_len = caller.bytes.len();
        let desc_len = proposal.description.len();
        if owner_len > MAX_RECORD_SIZE || desc_len > MAX_RECORD_SIZE {
            return false;
        }
        25 + owner_len + desc_len <= MAX_RECORD_SIZE
    }

    /// Pure lookup: the record at the key, or nothing when the key is absent.
    pub fn get_proposal(&self, key: u64) -> (r: Option<Proposal>)
        requires
            store_wf(*self),
        ensures
            match r {
                Some(p) => store_view(*self).contains_key(key) && p@ == store_view(*self)[key],
                None => !store_view(*self).contains_key(key),
            },
    {
        match store_get(self, key) {
            Some(bytes) => {
                proof {
                    assert(store_contents(*self).contains_key(key));
                }
                let p = decode_proposal(&bytes).unwrap();
                Some(p)
            },
            None => None,
        }
    }

    /// The number of records the map holds.
    pub fn get_proposal_count(&self) -> (n: u64)
        requires
            store_wf(*self),
        ensures
            n as nat == store_view(*self).dom().len(),
    {
        proof {
            assert(store_view(*self).dom() =~= store_contents(*self).dom());
        }
        store_len(self)
    }

    /// Stores a fresh record at the key, overwriting without warning, and
    /// returns the previous record at that key if one existed.
    pub fn create_proposal(&mut self, caller: Principal, key: u64, proposal: CreateProposal) -> (prev: Option<
        Proposal,
    >)
        requires
            store_wf(*old(self)),
            spec_encode(
                fresh_proposal_model(caller@, proposal.description@, proposal.is_active),
            ).len() <= MAX_RECORD_SIZE,
        ensures
            store_wf(*final(self)),
            store_view(*final(self)) == store_view(*old(self)).insert(
                key,
                fresh_proposal_model(caller@, proposal.description@, proposal.is_active),
            ),
            store_view(*final(self)).dom() == store_view(*old(self)).dom().insert(key),
            match prev {
                Some(p) => store_view(*old(self)).contains_key(key) && p@ == store_view(
                    *old(self),
                )[key],
                None => !store_view(*old(self)).contains_key(key),
            },
    {
        let ghost fresh = fresh_proposal_model(caller@, proposal.description@, proposal.is_active);
        let value = Proposal {
            description: proposal.description,
            approve: 0,
            reject: 0,
            pass: 0,
            is_active: proposal.is_active,
            voted: Vec::new(),
            owner: caller,
        };
        proof {
            assert(value@.voted =~= fresh.voted);
            assert(value@ =~= fresh);
            lemma_round_trip(fresh);
        }
        let enc = encode_proposal(&value).unwrap();
        let prev_bytes = store_insert(self, key, enc);
        proof {
            assert(store_wf(*self));
            assert(store_view(*self) =~= store_view(*old(self)).insert(key, fresh));
            assert(store_view(*self).dom() =~= store_view(*old(self)).dom().insert(key));
        }
        match prev_bytes {
            Some(b) => {
                proof {
                    assert(store_contents(*old(self)).contains_key(key));
                }
                Some(decode_proposal(&b).unwrap())
            },
            None => None,
        }
    }

    /// Replaces description and activity in place; only the owner may do so.
    pub fn edit_proposal(&mut self, caller: Principal, key: u64, proposal: CreateProposal) -> (r: Result<
        (),
        VoteError,
    >)
        requires
            store_wf(*old(self)),
        ensures
            store_wf(*final(self)),
            store_view(*final(self)).dom() == store_view(*old(self)).dom(),
            ({
                let v = store_view(*old(self));
                let m = edited_model(v[key], proposal.description@, proposal.is_active);
                if !v.contains_key(key) {
                    r == Err::<(), VoteError>(VoteError::NoSuchProposal) && store_view(
                        *final(self),
                    ) == v
                } else if caller@ != v[key].owner {
                    r == Err::<(), VoteError>(VoteError::AccessRejected) && store_view(
                        *final(self),
                    ) == v
                } else if spec_encode(m).len() <= MAX_RECORD_SIZE {
                    r == Ok::<(), VoteError>(()) && store_view(*final(self)) == v.insert(key, m)
                } else {
                    (r matches Err(VoteError::UpdateFailed(_))) && store_view(*final(self)) == v
                }
            }),
    {
        let bytes = match store_get(self, key) {
            Some(b) => b,
            None => {
                return Err(VoteError::NoSuchProposal);
            },
        };
        proof {
            assert(store_contents(*self).contains_key(key));
        }
        let old_p = decode_proposal(&bytes).unwrap();
        if !caller.same_as(&old_p.owner) {
            return Err(VoteError::AccessRejected);
        }
        let ghost m = edited_model(old_p@, proposal.description@, proposal.is_active);
        let new_p = Proposal {
            description: proposal.description,
            approve: old_p.approve,
            reject: old_p.reject,
            pass: old_p.pass,
            is_active: proposal.is_active,
            voted: old_p.voted,
            owner: old_p.owner,
        };
        proof {
            assert(new_p@ =~= m);
        }
        match encode_proposal(&new_p) {
            Some(enc) => {
                proof {
                    lemma_round_trip(m);
                }
                store_insert(self, key, enc);
                proof {
                    assert(store_wf(*self));
                    assert(store_view(*self) =~= store_view(*old(self)).insert(key, m));
                    assert(store_view(*self).dom() =~= store_view(*old(self)).dom());
                }
                Ok(())
            },
            None => Err(VoteError::UpdateFailed("record too large".to_string())),
        }
    }

    /// Deactivates the record at the key; only the owner may do so.
    pub fn end_proposal(&mut self, caller: Principal, key: u64) -> (r: Result<(), VoteError>)
        requires
            store_wf(*old(self)),
        ensures
            store_wf(*final(self)),
            store_view(*final(self)).dom() == store_view(*old(self)).dom(),
            ({
                let v = store_view(*old(self));
                if !v.contains_key(key) {
                    r == Err::<(), VoteError>(VoteError::NoSuchProposal) && store_view(
                        *final(self),
                    ) == v
                } else if caller@ != v[key].owner {
                    r == Err::<(), VoteError>(VoteError::AccessRejected) && store_view(
                        *final(self),
                    ) == v
                } else {
                    r == Ok::<(), VoteError>(()) && store_view(*final(self)) == v.insert(
                        key,
                        ended_model(v[key]),
                    )
                }
            }),
    {
        let bytes = match store_get(self, key) {
            Some(b) => b,
            None => {
                return Err(VoteError::NoSuchProposal);
            },
        };
        proof {
            assert(store_contents(*self).contains_key(key));
        }
        let mut p = decode_proposal(&bytes).unwrap();
        if !caller.same_as(&p.owner) {
            return Err(VoteError::AccessRejected);
        }
        let ghost m0 = p@;
        p.is_active = false;
        proof {
            assert(p@ =~= ended_model(m0));
            lemma_encode_len(m0);
            lemma_encode_len(ended_model(m0));
            lemma_round_trip(ended_model(m0));
        }
        match encode_proposal(&p) {
            Some(enc) => {
                store_insert(self, key, enc);
                proof {
                    assert(store_wf(*self));
                    assert(store_view(*self) =~= store_view(*old(self)).insert(
                        key,
                        ended_model(m0),
                    ));
                    assert(store_view(*self).dom() =~= store_view(*old(self)).dom());
                }
                Ok(())
            },
            None => Err(VoteError::UpdateFailed("record too large".to_string())),
        }
    }

    /// Casts a single-use vote: any caller may vote once per record, while it
    /// is active.
    pub fn vote(&mut self, caller: Principal, key: u64, choice: Choice) -> (r: Result<
        (),
        VoteError,
    >)
        requires
            store_wf(*old(self)),
        ensures
            store_wf(*final(self)),
            store_view(*final(self)).dom() == store_view(*old(self)).dom(),
            ({
                let v = store_view(*old(self));
                let m = voted_model(v[key], caller@, choice);
                if !v.contains_key(key) {
                    r == Err::<(), VoteError>(VoteError::NoSuchProposal) && store_view(
                        *final(self),
                    ) == v
                } else if v[key].voted.contains(caller@) {
                    r == Err::<(), VoteError>(VoteError::AlreadyVoted) && store_view(
                        *final(self),
                    ) == v
                } else if !v[key].is_active {
                    r == Err::<(), VoteError>(VoteError::ProposalIsNotActive) && store_view(
                        *final(self),
                    ) == v
                } else if spec_encode(m).len() <= MAX_RECORD_SIZE {
                    r == Ok::<(), VoteError>(()) && store_view(*final(self)) == v.insert(key, m)
                } else {
                    (r matches Err(VoteError::UpdateFailed(_))) && store_view(*final(self)) == v
                }
            }),
    {
        let bytes = match store_get(self, key) {
            Some(b) => b,
            None => {
                return Err(VoteError::NoSuchProposal);
            },
        };
        proof {
            assert(store_contents(*self).contains_key(key));
        }
        let mut p = decode_proposal(&bytes).unwrap();
        if contains_principal(&p.voted, &caller) {
            return Err(VoteError::AlreadyVoted);
        }
        if !p.is_active {
            return Err(VoteError::ProposalIsNotActive);
        }
        let ghost m0 = p@;
        proof {
            lemma_tally_headroom(m0);
        }
        match choice {
            Choice::Approve => {
                p.approve = p.approve + 1;
            },
            Choice::Reject => {
                p.reject = p.reject + 1;
            },
            Choice::Pass => {
                p.pass = p.pass + 1;
            },
        }
        p.voted.push(caller);
        let ghost m = voted_model(m0, caller@, choice);
        proof {
            assert(p@.voted =~= m.voted);
            assert(p@ =~= m);
            assert(no_duplicate_voters(m.voted)) by {
                assert(forall|i: int|
                    0 <= i < m0.voted.len() ==> m.voted[i] == m0.voted[i] && m0.voted[i]
                        != caller@);
            }
        }
        match encode_proposal(&p) {
            Some(enc) => {
                proof {
                    lemma_round_trip(m);
                }
                store_insert(self, key, enc);
                proof {
                    assert(store_wf(*self));
                    assert(store_view(*self) =~= store_view(*old(self)).insert(key, m));
                    assert(store_view(*self).dom() =~= store_view(*old(self)).dom());
                }
                Ok(())
            },
            None => Err(VoteError::UpdateFailed("record too large".to_string())),
        }
    }
}

} // verus!
