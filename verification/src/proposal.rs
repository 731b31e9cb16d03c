use vstd::prelude::*;

verus! {

/// Caller identity: an opaque, equality-comparable sequence of bytes.
pub struct Principal {
    pub bytes: Vec<u8>,
}

impl View for Principal {
    type V = Seq<u8>;

    open spec fn view(&self) -> Seq<u8> {
        self.bytes@
    }
}

impl Principal {
    /// Builds an identity from its raw bytes.
    pub fn from_bytes(bytes: Vec<u8>) -> (r: Principal)
        ensures
            r@ == bytes@,
    {
        Principal { bytes }
    }

    /// Two identities are the same exactly when their bytes are.
    pub fn same_as(&self, other: &Principal) -> (r: bool)
        ensures
            r == (self@ == other@),
    {
        bytes_eq(&self.bytes, &other.bytes)
    }
}

impl Clone for Principal {
    fn clone(&self) -> (r: Self)
        ensures
            r@ == self@,
    {
        let mut bytes: Vec<u8> = Vec::new();
        let mut i: usize = 0;
        while i < self.bytes.len()
            invariant
                i <= self.bytes.len(),
                bytes@ == self.bytes@.take(i as int),
            decreases self.bytes.len() - i,
        {
            bytes.push(self.bytes[i]);
            i = i + 1;
            proof {
                assert(bytes@ =~= self.bytes@.take(i as int));
            }
        }
        proof {
            assert(bytes@ =~= self.bytes@);
        }
        Principal { bytes }
    }
}

/// Byte-for-byte equality of two byte vectors.
fn bytes_eq(a: &Vec<u8>, b: &Vec<u8>) -> (r: bool)
    ensures
        r == (a@ == b@),
{
    if a.len() != b.len() {
        return false;
    }
    let mut i: usize = 0;
    while i < a.len()
        invariant
            i <= a.len(),
            a.len() == b.len(),
            forall|j: int| 0 <= j < i ==> a@[j] == b@[j],
        decreases a.len() - i,
    {
        if a[i] != b[i] {
            return false;
        }
        i = i + 1;
    }
    proof {
        assert(a@ =~= b@);
    }
    true
}

/// Whether `who` already appears among the voters.
#[verifier::loop_isolation(false)]
pub fn contains_principal(voters: &Vec<Principal>, who: &Principal) -> (r: bool)
    ensures
        r == voters@.map_values(|p: Principal| p@).contains(who@),
{
    let mut i: usize = 0;
    while i < voters.len()
        invariant
            i <= voters.len(),
            forall|j: int| 0 <= j < i ==> (#[trigger] voters@[j])@ != who@,
        decreases voters.len() - i,
    {
        if voters[i].same_as(who) {
            proof {
                assert(voters@.map_values(|p: Principal| p@)[i as int] == who@);
            }
            return true;
        }
        i = i + 1;
    }
    proof {
        let mv = voters@.map_values(|p: Principal| p@);
        if mv.contains(who@) {
            let k = choose|j: int| 0 <= j < mv.len() && mv[j] == who@;
            assert(mv[k] == voters@[k]@);
            assert(false);
        }
    }
    false
}

/// A ballot: which tally a vote goes to.
#[derive(Clone, Copy, Debug, PartialEq, Eq, Structural)]
pub enum Choice {
    Approve,
    Reject,
    Pass,
}

/// Why a mutating operation was refused.
#[derive(Debug)]
pub enum VoteError {
    AlreadyVoted,
    ProposalIsNotActive,
    NoSuchProposal,
    AccessRejected,
    UpdateFailed(String),
}

/// The arguments a caller supplies when creating or editing a proposal.
pub struct CreateProposal {
    pub description: Vec<u8>,
    pub is_active: bool,
}

/// The persisted governance record.
pub struct Proposal {
    pub description: Vec<u8>,
    pub approve: u32,
    pub reject: u32,
    pub pass: u32,
    pub is_active: bool,
    pub voted: Vec<Principal>,
    pub owner: Principal,
}

/// Mathematical image of a `Proposal`.
#[verifier::ext_equal]
pub struct ProposalModel {
    pub description: Seq<u8>,
    pub approve: u32,
    pub reject: u32,
    pub pass: u32,
    pub is_active: bool,
    pub voted: Seq<Seq<u8>>,
    pub owner: Seq<u8>,
}

impl View for Proposal {
    type V = ProposalModel;

    open spec fn view(&self) -> ProposalModel {
        ProposalModel {
            description: self.description@,
            approve: self.approve,
            reject: self.reject,
            pass: self.pass,
            is_active: self.is_active,
            voted: self.voted@.map_values(|p: Principal| p@),
            owner: self.owner@,
        }
    }
}

/// One tally increment per successful vote: the tallies sum to the voter count.
pub open spec fn tallies_consistent(m: ProposalModel) -> bool {
    m.approve + m.reject + m.pass == m.voted.len()
}

/// No identity appears twice among the voters.
pub open spec fn no_duplicate_voters(vs: Seq<Seq<u8>>) -> bool {
    forall|i: int, j: int| 0 <= i < j < vs.len() ==> vs[i] != vs[j]
}

/// Every record the store holds satisfies this.
pub open spec fn proposal_wf(m: ProposalModel) -> bool {
    tallies_consistent(m) && no_duplicate_voters(m.voted)
}

/// The record a fresh creation stores: zero tallies, nobody has voted.
pub open spec fn fresh_proposal_model(owner: Seq<u8>, description: Seq<u8>, is_active: bool) -> ProposalModel {
    ProposalModel {
        description,
        approve: 0,
        reject: 0,
        pass: 0,
        is_active,
        voted: Seq::empty(),
        owner,
    }
}

/// What an edit leaves behind: only description and activity change.
pub open spec fn edited_model(m: ProposalModel, description: Seq<u8>, is_active: bool) -> ProposalModel {
    ProposalModel { description, is_active, ..m }
}

/// What ending a proposal leaves behind: only the activity flag drops.
pub open spec fn ended_model(m: ProposalModel) -> ProposalModel {
    ProposalModel { is_active: false, ..m }
}

/// What a successful vote leaves behind: one tally up, the voter recorded.
pub open spec fn voted_model(m: ProposalModel, voter: Seq<u8>, choice: Choice) -> ProposalModel {
    ProposalModel {
        approve: if choice is Approve { (m.approve + 1) as u32 } else { m.approve },
        reject: if choice is Reject { (m.reject + 1) as u32 } else { m.reject },
        pass: if choice is Pass { (m.pass + 1) as u32 } else { m.pass },
        voted: m.voted.push(voter),
        ..m
    }
}

/// Votes are single-use: a successful vote records the voter, so a second
/// vote by the same identity on the same record finds it among the voters
/// and is refused as `AlreadyVoted`.
pub proof fn lemma_vote_is_single_use(m: ProposalModel, voter: Seq<u8>, choice: Choice)
    ensures
        voted_model(m, voter, choice).voted.contains(voter),
{
    assert(voted_model(m, voter, choice).voted[m.voted.len() as int] == voter);
}

} // verus!
